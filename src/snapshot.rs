use crate::codec::{decode, decode_field, encode, encode_field, is_base64_char};
use crate::errors::StoreError;
use crate::records::{lemma_map_of_sorted, map_of, Record};
use crate::store::KVStore;
use crate::text::{chars_of, push_char};
use vstd::prelude::*;

verus! {

/// How a field character is written in a snapshot line: the delimiter takes a backslash
/// before it; every other character stands as it is.
pub open spec fn escape_char(c: char) -> Seq<char> {
    if c == '|' {
        seq!['\\', '|']
    } else {
        seq![c]
    }
}

pub open spec fn escape(s: Seq<char>) -> Seq<char>
    decreases s.len(),
{
    if s.len() == 0 {
        Seq::empty()
    } else {
        escape_char(s[0]) + escape(s.drop_first())
    }
}

/// Where the first unescaped delimiter of a line stands from position `i` on: the first
/// `|` that does not follow a backslash.
pub open spec fn delimiter_from(s: Seq<char>, i: int) -> Option<int>
    decreases s.len() - i,
{
    if i < 0 || i >= s.len() {
        None
    } else if s[i] == '|' && (i == 0 || s[i - 1] != '\\') {
        Some(i)
    } else {
        delimiter_from(s, i + 1)
    }
}

/// The characters of a line from position `i` to its end, each `\|` read as `|`.
pub open spec fn unescape_from(s: Seq<char>, i: int) -> Seq<char>
    decreases s.len() - i,
{
    if i < 0 || i >= s.len() {
        Seq::empty()
    } else if s[i] == '\\' && i + 1 < s.len() && s[i + 1] == '|' {
        seq!['|'] + unescape_from(s, i + 2)
    } else {
        seq![s[i]] + unescape_from(s, i + 1)
    }
}

/// A field wrapped in one pair of double quotes loses that pair, and only that.
pub open spec fn strip_quotes(f: Seq<char>) -> Seq<char> {
    if f.len() >= 2 && f[0] == '"' && f[f.len() - 1] == '"' {
        f.subrange(1, f.len() - 1)
    } else {
        f
    }
}

/// What one line of a snapshot holds: the key is the text before the first unescaped
/// delimiter, as it stands, and the field is the unescaped rest of the line. The result is
/// `Some(Some(record))`; `Some(None)` for a line to skip, which lacks a key or a field; `None`
/// for a field that does not decode.
pub open spec fn line_record(l: Seq<char>) -> Option<Option<Record>> {
    match delimiter_from(l, 0) {
        None => Some(None),
        Some(p) => if p == 0 || p + 1 >= l.len() {
            Some(None)
        } else {
            match decode_field(strip_quotes(unescape_from(l, p + 1))) {
                Some(d) => Some(Some((l.subrange(0, p), d))),
                None => None,
            }
        },
    }
}

/// The lines of a text from position `i`, the current line having `cur` so far; a text
/// that ends in a line break has no empty last line.
pub open spec fn lines_from(s: Seq<char>, i: int, cur: Seq<char>) -> Seq<Seq<char>>
    decreases s.len() - i,
{
    if i < 0 || i >= s.len() {
        if cur.len() == 0 {
            Seq::empty()
        } else {
            seq![cur]
        }
    } else if s[i] == '\n' {
        seq![cur] + lines_from(s, i + 1, Seq::empty())
    } else {
        lines_from(s, i + 1, cur.push(s[i]))
    }
}

pub open spec fn lines_of(s: Seq<char>) -> Seq<Seq<char>> {
    lines_from(s, 0, Seq::empty())
}

/// The map that some lines load to, a later line winning over an earlier one; `None`
/// where some line's field does not decode.
pub open spec fn load_lines(ls: Seq<Seq<char>>) -> Option<Map<Seq<char>, Seq<u8>>>
    decreases ls.len(),
{
    if ls.len() == 0 {
        Some(Map::empty())
    } else {
        match load_lines(ls.drop_last()) {
            None => None,
            Some(m) => match line_record(ls.last()) {
                None => None,
                Some(None) => Some(m),
                Some(Some(r)) => Some(m.insert(r.0, r.1)),
            },
        }
    }
}

/// The map that a snapshot text loads to.
pub open spec fn load_text(t: Seq<char>) -> Option<Map<Seq<char>, Seq<u8>>> {
    load_lines(lines_of(t))
}

/// The line that a record is written as, without its line break: the key as it is, the
/// delimiter, and the escaped field.
pub open spec fn record_line(r: Record) -> Seq<char> {
    r.0 + seq!['|'] + escape(encode_field(r.1))
}

/// A key that its snapshot line gives back as written: not empty, without a delimiter or a
/// line break, and not ending in a backslash, which would escape the delimiter after it.
pub open spec fn is_snapshot_key(k: Seq<char>) -> bool {
    &&& k.len() > 0
    &&& forall|j: int| 0 <= j < k.len() ==> #[trigger] k[j] != '|' && k[j] != '\n'
    &&& k[k.len() - 1] != '\\'
}

/// The snapshot text of some records: one line each, in order.
pub open spec fn snapshot_text(rs: Seq<Record>) -> Seq<char>
    decreases rs.len(),
{
    if rs.len() == 0 {
        Seq::empty()
    } else {
        record_line(rs[0]) + seq!['\n'] + snapshot_text(rs.drop_first())
    }
}

/// A document whose field decodes back to it and is made of base64 characters.
pub open spec fn field_round_trips(d: Seq<u8>) -> bool {
    let f = encode_field(d);
    &&& f.len() > 0
    &&& forall|i: int| 0 <= i < f.len() ==> is_base64_char(#[trigger] f[i])
    &&& decode_field(f) == Some(d)
}

/// The two parts of a stretch of text that is the concatenation of two sequences.
proof fn lemma_subrange_split(s: Seq<char>, i: int, a: Seq<char>, b: Seq<char>)
    requires
        0 <= i,
        i + a.len() + b.len() <= s.len(),
        s.subrange(i, i + a.len() + b.len()) == a + b,
    ensures
        s.subrange(i, i + a.len()) == a,
        s.subrange(i + a.len(), i + a.len() + b.len()) == b,
        forall|j: int| 0 <= j < a.len() ==> s[i + j] == #[trigger] a[j],
        forall|j: int| 0 <= j < b.len() ==> s[i + a.len() + j] == #[trigger] b[j],
{
    let w = s.subrange(i, i + a.len() + b.len());
    assert forall|j: int| 0 <= j < a.len() implies s[i + j] == #[trigger] a[j] by {
        assert(w[j] == (a + b)[j]);
    }
    assert forall|j: int| 0 <= j < b.len() implies s[i + a.len() + j] == #[trigger] b[j] by {
        assert(w[a.len() + j] == (a + b)[a.len() + j]);
    }
    assert(s.subrange(i, i + a.len()) =~= a);
    assert(s.subrange(i + a.len(), i + a.len() + b.len()) =~= b);
}

pub proof fn lemma_escape_push(s: Seq<char>, c: char)
    ensures
        escape(s.push(c)) == escape(s) + escape_char(c),
    decreases s.len(),
{
    if s.len() == 0 {
        assert(s.push(c).drop_first() =~= Seq::<char>::empty());
        assert(s.push(c)[0] == c);
        assert(escape(s.push(c).drop_first()) == Seq::<char>::empty());
        assert(escape(s) == Seq::<char>::empty());
        assert(escape(s.push(c)) =~= escape(s) + escape_char(c));
    } else {
        assert(s.push(c).drop_first() =~= s.drop_first().push(c));
        assert(s.push(c)[0] == s[0]);
        lemma_escape_push(s.drop_first(), c);
        assert(escape(s.push(c)) == escape_char(s[0]) + escape(s.drop_first().push(c)));
        assert(escape(s.push(c)) =~= escape(s) + escape_char(c));
    }
}

pub proof fn lemma_escape_no_line_break(s: Seq<char>)
    requires
        forall|j: int| 0 <= j < s.len() ==> #[trigger] s[j] != '\n',
    ensures
        forall|j: int| 0 <= j < escape(s).len() ==> #[trigger] escape(s)[j] != '\n',
    decreases s.len(),
{
    if s.len() > 0 {
        assert forall|j: int| 0 <= j < s.drop_first().len() implies #[trigger] s.drop_first()[j] != '\n' by {
            assert(s.drop_first()[j] == s[j + 1]);
        }
        lemma_escape_no_line_break(s.drop_first());
        let e = escape_char(s[0]);
        assert forall|j: int| 0 <= j < escape(s).len() implies #[trigger] escape(s)[j] != '\n' by {
            if j >= e.len() {
                assert(escape(s)[j] == escape(s.drop_first())[j - e.len()]);
            }
        }
    }
}

/// An escaped text that is not empty does not start with the delimiter.
pub proof fn lemma_escape_first(s: Seq<char>)
    requires
        s.len() > 0,
    ensures
        escape(s).len() > 0,
        escape(s)[0] != '|',
{
    assert(escape(s) == escape_char(s[0]) + escape(s.drop_first()));
}

/// The delimiter found from position `i` is the first `|` that does not follow a backslash.
pub proof fn lemma_delimiter_at(s: Seq<char>, i: int, p: int)
    requires
        0 <= i <= p < s.len(),
        forall|j: int| i <= j < p ==> #[trigger] s[j] != '|',
        s[p] == '|',
        p == 0 || s[p - 1] != '\\',
    ensures
        delimiter_from(s, i) == Some(p),
    decreases p - i,
{
    if i < p {
        lemma_delimiter_at(s, i + 1, p);
    }
}

/// Unescaping the escaped text that ends a line gives the text back.
pub proof fn lemma_unescape_escaped(s: Seq<char>, i: int, f: Seq<char>)
    requires
        0 <= i <= s.len(),
        s.subrange(i, s.len() as int) == escape(f),
    ensures
        unescape_from(s, i) == f,
    decreases f.len(),
{
    if f.len() == 0 {
        assert(s.subrange(i, s.len() as int).len() == 0);
        assert(f =~= Seq::<char>::empty());
    } else {
        let c = f[0];
        let e = escape_char(c);
        let rest = f.drop_first();
        assert(escape(f) == e + escape(rest));
        lemma_subrange_split(s, i, e, escape(rest));
        assert(s[i] == e[0]);
        lemma_unescape_escaped(s, i + e.len(), rest);
        if c == '|' {
            assert(s[i + 1] == e[1]);
        } else if c == '\\' && rest.len() > 0 {
            lemma_escape_first(rest);
            assert(s[i + 1 + 0] == escape(rest)[0]);
        }
        assert(f =~= seq![c] + rest);
    }
}

/// A line without line breaks followed by one is read whole.
pub proof fn lemma_lines_line(s: Seq<char>, i: int, cur: Seq<char>, l: Seq<char>)
    requires
        0 <= i,
        i + l.len() < s.len(),
        s.subrange(i, i + l.len()) == l,
        forall|j: int| 0 <= j < l.len() ==> #[trigger] l[j] != '\n',
        s[i + l.len()] == '\n',
    ensures
        lines_from(s, i, cur) == seq![cur + l] + lines_from(s, i + l.len() + 1, Seq::empty()),
    decreases l.len(),
{
    if l.len() == 0 {
        assert(cur + l =~= cur);
    } else {
        let rest = l.drop_first();
        assert(s[i] == l[0]);
        assert(s.subrange(i + 1, i + 1 + rest.len()) =~= rest);
        assert forall|j: int| 0 <= j < rest.len() implies #[trigger] rest[j] != '\n' by {
            assert(rest[j] == l[j + 1]);
        }
        lemma_lines_line(s, i + 1, cur.push(l[0]), rest);
        assert(cur.push(l[0]) + rest =~= cur + l);
    }
}

pub proof fn lemma_record_line_no_line_break(r: Record)
    requires
        is_snapshot_key(r.0),
        field_round_trips(r.1),
    ensures
        forall|j: int| 0 <= j < record_line(r).len() ==> #[trigger] record_line(r)[j] != '\n',
{
    let a = r.0;
    let f = encode_field(r.1);
    let b = escape(f);
    assert forall|j: int| 0 <= j < f.len() implies #[trigger] f[j] != '\n' by {
        assert(is_base64_char(f[j]));
    }
    lemma_escape_no_line_break(f);
    assert forall|j: int| 0 <= j < record_line(r).len() implies #[trigger] record_line(r)[j] != '\n' by {
        if j < a.len() {
            assert(record_line(r)[j] == a[j]);
        } else if j > a.len() {
            assert(record_line(r)[j] == b[j - a.len() - 1]);
        }
    }
}

/// The lines of a snapshot text are the records' lines.
pub proof fn lemma_lines_of_snapshot(rs: Seq<Record>, s: Seq<char>, i: int)
    requires
        0 <= i <= s.len(),
        s.subrange(i, s.len() as int) == snapshot_text(rs),
        forall|j: int| 0 <= j < rs.len() ==> is_snapshot_key((#[trigger] rs[j]).0) && field_round_trips(rs[j].1),
    ensures
        lines_from(s, i, Seq::empty()) == rs.map_values(|r: Record| record_line(r)),
    decreases rs.len(),
{
    if rs.len() == 0 {
        assert(s.subrange(i, s.len() as int).len() == 0);
        assert(rs.map_values(|r: Record| record_line(r)) =~= Seq::<Seq<char>>::empty());
    } else {
        let l = record_line(rs[0]);
        assert(is_snapshot_key(rs[0].0) && field_round_trips(rs[0].1));
        lemma_record_line_no_line_break(rs[0]);
        let t = snapshot_text(rs);
        assert(t == l + seq!['\n'] + snapshot_text(rs.drop_first()));
        lemma_subrange_split(s, i, l + seq!['\n'], snapshot_text(rs.drop_first()));
        lemma_subrange_split(s, i, l, seq!['\n']);
        assert(s[i + l.len() + 0] == seq!['\n'][0]);
        lemma_lines_line(s, i, Seq::empty(), l);
        assert forall|j: int| 0 <= j < rs.drop_first().len() implies is_snapshot_key((#[trigger] rs.drop_first()[j]).0) && field_round_trips(rs.drop_first()[j].1) by {
            assert(rs.drop_first()[j] == rs[j + 1]);
        }
        lemma_lines_of_snapshot(rs.drop_first(), s, i + l.len() + 1);
        assert(Seq::<char>::empty() + l =~= l);
        assert(rs.map_values(|r: Record| record_line(r)) =~= seq![l] + rs.drop_first().map_values(|r: Record| record_line(r)));
    }
}

/// The line of a record reads back as that record.
pub proof fn lemma_record_line_reads_back(r: Record)
    requires
        is_snapshot_key(r.0),
        field_round_trips(r.1),
    ensures
        line_record(record_line(r)) == Some(Some(r)),
{
    let l = record_line(r);
    let k = r.0;
    let p = k.len() as int;
    let f = encode_field(r.1);
    let b = escape(f);
    lemma_escape_first(f);
    assert forall|j: int| 0 <= j < p implies #[trigger] l[j] != '|' by {
        assert(l[j] == k[j]);
    }
    assert(l[p - 1] == k[p - 1]);
    lemma_delimiter_at(l, 0, p);
    assert(l.subrange(0, p) =~= k);
    assert(l.subrange(p + 1, l.len() as int) =~= b);
    lemma_unescape_escaped(l, p + 1, f);
    assert(strip_quotes(f) == f);
}

/// Loading the lines of some records gives the map that the records stand for.
pub proof fn lemma_load_record_lines(rs: Seq<Record>)
    requires
        forall|j: int| 0 <= j < rs.len() ==> is_snapshot_key((#[trigger] rs[j]).0) && field_round_trips(rs[j].1),
    ensures
        load_lines(rs.map_values(|r: Record| record_line(r))) == Some(map_of(rs)),
    decreases rs.len(),
{
    if rs.len() > 0 {
        let ls = rs.map_values(|r: Record| record_line(r));
        assert(ls.drop_last() =~= rs.drop_last().map_values(|r: Record| record_line(r)));
        assert forall|j: int| 0 <= j < rs.drop_last().len() implies is_snapshot_key((#[trigger] rs.drop_last()[j]).0) && field_round_trips(rs.drop_last()[j].1) by {
            assert(rs.drop_last()[j] == rs[j]);
        }
        lemma_load_record_lines(rs.drop_last());
        assert(rs[rs.len() - 1] == rs.last());
        lemma_record_line_reads_back(rs.last());
    }
}

/// A snapshot of records whose keys read back as written and whose fields decode back
/// loads to the map that the records stand for.
pub proof fn lemma_snapshot_round_trip(rs: Seq<Record>)
    requires
        forall|j: int| 0 <= j < rs.len() ==> is_snapshot_key((#[trigger] rs[j]).0) && field_round_trips(rs[j].1),
    ensures
        load_text(snapshot_text(rs)) == Some(map_of(rs)),
{
    let s = snapshot_text(rs);
    assert(s.subrange(0, s.len() as int) =~= s);
    lemma_lines_of_snapshot(rs, s, 0);
    lemma_load_record_lines(rs);
}

pub proof fn lemma_snapshot_push(rs: Seq<Record>, r: Record)
    ensures
        snapshot_text(rs.push(r)) == snapshot_text(rs) + record_line(r) + seq!['\n'],
    decreases rs.len(),
{
    if rs.len() == 0 {
        assert(rs.push(r).drop_first() =~= rs);
        assert(rs.push(r)[0] == r);
        assert(snapshot_text(rs) == Seq::<char>::empty());
        assert(snapshot_text(rs.push(r)) =~= snapshot_text(rs) + record_line(r) + seq!['\n']);
    } else {
        assert(rs.push(r).drop_first() =~= rs.drop_first().push(r));
        assert(rs.push(r)[0] == rs[0]);
        lemma_snapshot_push(rs.drop_first(), r);
        assert(snapshot_text(rs.push(r)) =~= snapshot_text(rs) + record_line(r) + seq!['\n']);
    }
}

/// Once a line fails to load, the lines after it change nothing.
pub proof fn lemma_load_fails_onward(a: Seq<Seq<char>>, b: Seq<Seq<char>>)
    requires
        load_lines(a) is None,
    ensures
        load_lines(a + b) is None,
    decreases b.len(),
{
    if b.len() == 0 {
        assert(a + b =~= a);
    } else {
        assert((a + b).drop_last() =~= a + b.drop_last());
        lemma_load_fails_onward(a, b.drop_last());
    }
}

/// Appends the escaped form of some characters.
fn push_escaped(out: &mut String, s: &Vec<char>)
    ensures
        final(out)@ == old(out)@ + escape(s@),
{
    let ghost start = out@;
    let n = s.len();
    let mut i: usize = 0;
    proof {
        assert(s@.take(0) =~= Seq::<char>::empty());
        assert(start + escape(s@.take(0)) =~= start);
    }
    while i < n
        invariant
            n == s@.len(),
            i <= n,
            out@ == start + escape(s@.take(i as int)),
        decreases n - i,
    {
        let c = s[i];
        if c == '|' {
            push_char(out, '\\');
            push_char(out, '|');
        } else {
            push_char(out, c);
        }
        proof {
            assert(s@.take(i + 1) =~= s@.take(i as int).push(c));
            lemma_escape_push(s@.take(i as int), c);
            assert(out@ =~= start + escape(s@.take(i + 1)));
        }
        i = i + 1;
    }
    proof {
        assert(s@.take(n as int) =~= s@);
    }
}

/// The snapshot text of the store: for each record in key order its key as it is, the
/// delimiter, its field with each `|` escaped as `\|`, and a line break. Where every key
/// reads back as written, loading the text gives the store's map back.
pub fn write_kvstore(store: &KVStore) -> (r: String)
    requires
        store.wf(),
    ensures
        r@ == snapshot_text(store.records()),
        (forall|k: Seq<char>| #[trigger] store@.contains_key(k) ==> is_snapshot_key(k)) ==> load_text(r@)
            == Some(store@),
{
    let ghost rs = store.records();
    let n = store.len();
    let mut out = String::new();
    let mut i: usize = 0;
    proof {
        assert(rs.take(0) =~= Seq::<Record>::empty());
    }
    while i < n
        invariant
            n == rs.len(),
            rs == store.records(),
            i <= n,
            out@ == snapshot_text(rs.take(i as int)),
            forall|j: int| 0 <= j < i ==> field_round_trips(#[trigger] rs[j].1),
        decreases n - i,
    {
        let rec = store.record_at(i);
        let field = encode(&rec.1);
        let field_chars = chars_of(field.as_str());
        out.append(rec.0.as_str());
        push_char(&mut out, '|');
        push_escaped(&mut out, &field_chars);
        push_char(&mut out, '\n');
        proof {
            lemma_snapshot_push(rs.take(i as int), rs[i as int]);
            assert(rs.take(i + 1) =~= rs.take(i as int).push(rs[i as int]));
            assert(out@ =~= snapshot_text(rs.take(i as int)) + record_line(rs[i as int]) + seq!['\n']);
            assert(field_round_trips(rs[i as int].1));
        }
        i = i + 1;
    }
    proof {
        assert(rs.take(n as int) =~= rs);
        if forall|k: Seq<char>| #[trigger] store@.contains_key(k) ==> is_snapshot_key(k) {
            lemma_map_of_sorted(rs);
            assert forall|j: int| 0 <= j < rs.len() implies is_snapshot_key((#[trigger] rs[j]).0) && field_round_trips(rs[j].1) by {
                assert(store@.contains_key(rs[j].0));
            }
            lemma_snapshot_round_trip(rs);
        }
    }
    out
}

/// The position of a line's first unescaped delimiter.
fn find_delimiter(line: &Vec<char>) -> (r: Option<usize>)
    ensures
        delimiter_from(line@, 0) is None ==> r is None,
        delimiter_from(line@, 0) is Some ==> r is Some && r->Some_0 == delimiter_from(line@, 0)->Some_0,
        r is Some ==> r->Some_0 < line@.len(),
{
    let n = line.len();
    let mut i: usize = 0;
    while i < n
        invariant
            n == line@.len(),
            i <= n,
            delimiter_from(line@, 0) == delimiter_from(line@, i as int),
        decreases n - i,
    {
        if line[i] == '|' && (i == 0 || line[i - 1] != '\\') {
            return Some(i);
        }
        i = i + 1;
    }
    None
}

/// The characters of a line between two positions, as a string.
fn string_of_range(line: &Vec<char>, from: usize, to: usize) -> (r: String)
    requires
        from <= to <= line@.len(),
    ensures
        r@ == line@.subrange(from as int, to as int),
{
    let mut out = String::new();
    let mut i: usize = from;
    while i < to
        invariant
            from <= i <= to <= line@.len(),
            out@ == line@.subrange(from as int, i as int),
        decreases to - i,
    {
        push_char(&mut out, line[i]);
        proof {
            assert(out@ =~= line@.subrange(from as int, i + 1));
        }
        i = i + 1;
    }
    out
}

/// The characters of a line from position `j` to its end, each `\|` read as `|`.
fn unescape_rest(line: &Vec<char>, j: usize) -> (r: String)
    requires
        j <= line@.len(),
    ensures
        r@ == unescape_from(line@, j as int),
{
    let n = line.len();
    let mut out = String::new();
    let mut i: usize = j;
    proof {
        assert(out@ + unescape_from(line@, j as int) =~= unescape_from(line@, j as int));
    }
    while i < n
        invariant
            n == line@.len(),
            j <= i <= n,
            unescape_from(line@, j as int) == out@ + unescape_from(line@, i as int),
        decreases n - i,
    {
        let c = line[i];
        if c == '\\' && i + 1 < n && line[i + 1] == '|' {
            proof {
                assert(out@ + unescape_from(line@, i as int) =~= out@.push('|') + unescape_from(line@, i + 2));
            }
            push_char(&mut out, '|');
            i = i + 2;
        } else {
            proof {
                assert(out@ + unescape_from(line@, i as int) =~= out@.push(c) + unescape_from(line@, i + 1));
            }
            push_char(&mut out, c);
            i = i + 1;
        }
    }
    proof {
        assert(out@ + unescape_from(line@, i as int) =~= out@);
    }
    out
}

/// Reads one line into the store: adds its record, skips a line without key or field, and
/// fails where the field does not decode.
fn load_line(store: &mut KVStore, line: &Vec<char>) -> (r: Result<(), StoreError>)
    requires
        old(store).wf(),
    ensures
        final(store).wf(),
        line_record(line@) is None ==> r == Err::<(), StoreError>(StoreError::CorruptSnapshot),
        line_record(line@) == Some(None::<Record>) ==> r is Ok && final(store)@ == old(store)@,
        line_record(line@) is Some && line_record(line@)->Some_0 is Some ==> r is Ok && final(store)@
            == old(store)@.insert(line_record(line@)->Some_0->Some_0.0, line_record(line@)->Some_0->Some_0.1),
{
    let found = find_delimiter(line);
    match found {
        None => Ok(()),
        Some(p) => {
            assert(p < line@.len());
            if p == 0 || p >= line.len() - 1 {
                return Ok(());
            }
            let key = string_of_range(line, 0, p);
            let field = unescape_rest(line, p + 1);
            let fs = field.as_str();
            let m = fs.unicode_len();
            let stripped = if m >= 2 && fs.get_char(0) == '"' && fs.get_char(m - 1) == '"' {
                fs.substring_char(1, m - 1)
            } else {
                fs
            };
            match decode(stripped) {
                Ok(d) => {
                    let _ = store.insert(String::new(), key, d);
                    Ok(())
                },
                Err(_) => Err(StoreError::CorruptSnapshot),
            }
        },
    }
}

/// Loads a snapshot text: the records of its lines, a later line winning over an earlier
/// one; fails where a line's field does not decode.
pub fn read_kvstore(contents: &str) -> (r: Result<KVStore, StoreError>)
    ensures
        load_text(contents@) is Some ==> r is Ok && r->Ok_0.wf() && r->Ok_0@ == load_text(contents@)->Some_0,
        load_text(contents@) is None ==> r is Err && r->Err_0 == StoreError::CorruptSnapshot,
{
    let text = chars_of(contents);
    let n = text.len();
    let mut store = KVStore::new();
    let mut line: Vec<char> = Vec::new();
    let ghost mut done: Seq<Seq<char>> = Seq::empty();
    let mut i: usize = 0;
    proof {
        assert(done + lines_from(text@, 0, line@) =~= lines_of(text@));
    }
    while i < n
        invariant
            n == text@.len(),
            text@ == contents@,
            i <= n,
            lines_of(text@) == done + lines_from(text@, i as int, line@),
            store.wf(),
            load_lines(done) == Some(store@),
        decreases n - i,
    {
        let c = text[i];
        if c == '\n' {
            proof {
                assert(done + lines_from(text@, i as int, line@) =~= done.push(line@) + lines_from(text@, i + 1, Seq::empty()));
                assert(done.push(line@).drop_last() =~= done);
            }
            let loaded = load_line(&mut store, &line);
            if loaded.is_err() {
                proof {
                    lemma_load_fails_onward(done.push(line@), lines_from(text@, i + 1, Seq::empty()));
                }
                return Err(StoreError::CorruptSnapshot);
            }
            proof {
                done = done.push(line@);
            }
            line = Vec::new();
        } else {
            line.push(c);
        }
        i = i + 1;
    }
    if line.len() > 0 {
        proof {
            assert(done + lines_from(text@, i as int, line@) =~= done.push(line@));
            assert(done.push(line@).drop_last() =~= done);
        }
        let loaded = load_line(&mut store, &line);
        if loaded.is_err() {
            return Err(StoreError::CorruptSnapshot);
        }
    } else {
        proof {
            assert(done + lines_from(text@, i as int, line@) =~= done);
        }
    }
    Ok(store)
}

} // verus!
