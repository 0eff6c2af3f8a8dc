//! The header of a frame: a mapping from field names to lists of values,
//! kept and written in the order of the names.

use vstd::prelude::*;
use vstd::string::*;
use crate::error::{Failure, ReadError};
use crate::io::{DelimitedReader, LimitedReader, MemReader};
use crate::order::{
    lemma_name_lt_irreflexive,
    lemma_name_lt_transitive,
    name_lt,
    rank,
    Rank,
};
use crate::scan::{lemma_prefix_len, prefix_len};
use crate::string::{encode, unescape_chars};
use crate::text::{
    decode_text,
    find_char,
    from_chars,
    join,
    skip_trailing,
    skip_whitespace,
    skip_whitespace_back,
};
use crate::wire::{
    added,
    field_line,
    header_wire,
    parse_block,
    parse_header,
    parse_line,
    EOL,
    MAX_HEADER_SIZE,
};

verus! {

/// A field as plain values: its name and its values.
pub type Line = (Seq<char>, Seq<Seq<char>>);

/// The characters of each string of `v`.
pub open spec fn texts(v: Seq<String>) -> Seq<Seq<char>> {
    v.map_values(|s: String| s@)
}

/// The names of `ls` stand in rising order, so none occurs twice.
pub open spec fn sorted(ls: Seq<Line>) -> bool {
    forall|i: int, j: int| 0 <= i < j < ls.len() ==> name_lt((#[trigger] ls[i]).0, (#[trigger] ls[j]).0)
}

/// Some field of `ls` has the name `k`.
pub open spec fn has_name(ls: Seq<Line>, k: Seq<char>) -> bool {
    exists|i: int| 0 <= i < ls.len() && (#[trigger] ls[i]).0 == k
}

/// The place of a field of `ls` with the name `k`.
pub open spec fn index_of(ls: Seq<Line>, k: Seq<char>) -> int {
    choose|i: int| 0 <= i < ls.len() && (#[trigger] ls[i]).0 == k
}

/// The mapping that the fields `ls` make: each name to its values.
pub open spec fn as_map(ls: Seq<Line>) -> Map<Seq<char>, Seq<Seq<char>>> {
    Map::new(|k: Seq<char>| has_name(ls, k), |k: Seq<char>| ls[index_of(ls, k)].1)
}

/// In a sorted list the mapping takes the name of each field to the values
/// of that field.
pub proof fn lemma_lookup(ls: Seq<Line>, i: int)
    requires
        sorted(ls),
        0 <= i < ls.len(),
    ensures
        as_map(ls).contains_key(ls[i].0),
        as_map(ls)[ls[i].0] == ls[i].1,
        index_of(ls, ls[i].0) == i,
{
    let k = ls[i].0;
    assert(has_name(ls, k));
    let j = index_of(ls, k);
    lemma_name_lt_irreflexive(k);
    if j < i {
        assert(name_lt(ls[j].0, ls[i].0));
    } else if i < j {
        assert(name_lt(ls[i].0, ls[j].0));
    }
}

/// A name that stands between the names before place `i` and those from
/// place `i` on is not in the list.
pub proof fn lemma_absent(ls: Seq<Line>, i: int, k: Seq<char>)
    requires
        0 <= i <= ls.len(),
        forall|j: int| 0 <= j < i ==> name_lt((#[trigger] ls[j]).0, k),
        forall|j: int| i <= j < ls.len() ==> name_lt(k, (#[trigger] ls[j]).0),
    ensures
        !has_name(ls, k),
        !as_map(ls).contains_key(k),
{
    lemma_name_lt_irreflexive(k);
    if has_name(ls, k) {
        let j = index_of(ls, k);
        if j < i {
            assert(name_lt(ls[j].0, k));
        } else {
            assert(name_lt(k, ls[j].0));
        }
    }
}

/// Putting a new name at its place keeps the list sorted and adds the name
/// to the mapping.
pub proof fn lemma_insert(ls: Seq<Line>, i: int, k: Seq<char>, v: Seq<Seq<char>>)
    requires
        sorted(ls),
        0 <= i <= ls.len(),
        forall|j: int| 0 <= j < i ==> name_lt((#[trigger] ls[j]).0, k),
        forall|j: int| i <= j < ls.len() ==> name_lt(k, (#[trigger] ls[j]).0),
    ensures
        sorted(ls.insert(i, (k, v))),
        as_map(ls.insert(i, (k, v))) == as_map(ls).insert(k, v),
{
    let after = ls.insert(i, (k, v));
    assert forall|a: int, b: int| 0 <= a < b < after.len() implies name_lt(
        (#[trigger] after[a]).0,
        (#[trigger] after[b]).0,
    ) by {
        let a0 = if a < i { a } else { a - 1 };
        let b0 = if b < i { b } else { b - 1 };
        if a == i {
            assert(after[b] == ls[b0]);
        } else if b == i {
            assert(after[a] == ls[a0]);
        } else {
            assert(after[a] == ls[a0]);
            assert(after[b] == ls[b0]);
            assert(name_lt(ls[a0].0, ls[b0].0));
        }
    }
    assert(after[i] == (k, v));
    lemma_lookup(after, i);
    assert forall|q: Seq<char>| as_map(after).contains_key(q) <==> as_map(ls).insert(
        k,
        v,
    ).contains_key(q) by {
        if has_name(after, q) {
            let j = index_of(after, q);
            if j < i {
                assert(after[j] == ls[j]);
            } else if j > i {
                assert(after[j] == ls[j - 1]);
            }
        }
        if has_name(ls, q) {
            let j = index_of(ls, q);
            if j < i {
                assert(after[j] == ls[j]);
            } else {
                assert(after[j + 1] == ls[j]);
            }
        }
    }
    assert forall|q: Seq<char>| as_map(after).contains_key(q) implies as_map(after)[q] == as_map(
        ls,
    ).insert(k, v)[q] by {
        if q != k {
            let j = index_of(ls, q);
            assert(has_name(ls, q));
            lemma_lookup(ls, j);
            if j < i {
                assert(after[j] == ls[j]);
                lemma_lookup(after, j);
            } else {
                assert(after[j + 1] == ls[j]);
                lemma_lookup(after, j + 1);
            }
        }
    }
    assert(as_map(after) =~= as_map(ls).insert(k, v));
}

/// Giving the field at place `i` new values keeps the list sorted and
/// changes the mapping at that name only.
pub proof fn lemma_update(ls: Seq<Line>, i: int, v: Seq<Seq<char>>)
    requires
        sorted(ls),
        0 <= i < ls.len(),
    ensures
        sorted(ls.update(i, (ls[i].0, v))),
        as_map(ls.update(i, (ls[i].0, v))) == as_map(ls).insert(ls[i].0, v),
{
    let k = ls[i].0;
    let after = ls.update(i, (k, v));
    assert forall|a: int, b: int| 0 <= a < b < after.len() implies name_lt(
        (#[trigger] after[a]).0,
        (#[trigger] after[b]).0,
    ) by {
        assert(after[a].0 == ls[a].0);
        assert(after[b].0 == ls[b].0);
        assert(name_lt(ls[a].0, ls[b].0));
    }
    lemma_lookup(after, i);
    assert forall|q: Seq<char>| as_map(after).contains_key(q) <==> as_map(ls).insert(
        k,
        v,
    ).contains_key(q) by {
        if has_name(after, q) {
            let j = index_of(after, q);
            assert(after[j].0 == ls[j].0);
        }
        if has_name(ls, q) {
            let j = index_of(ls, q);
            assert(after[j].0 == ls[j].0);
        }
    }
    assert forall|q: Seq<char>| as_map(after).contains_key(q) implies as_map(after)[q] == as_map(
        ls,
    ).insert(k, v)[q] by {
        if q != k {
            let j = index_of(ls, q);
            assert(has_name(ls, q));
            lemma_lookup(ls, j);
            assert(after[j] == ls[j]);
            lemma_lookup(after, j);
        }
    }
    assert(as_map(after) =~= as_map(ls).insert(k, v));
}

/// Taking the field at place `i` out keeps the list sorted and takes its
/// name out of the mapping.
pub proof fn lemma_remove(ls: Seq<Line>, i: int)
    requires
        sorted(ls),
        0 <= i < ls.len(),
    ensures
        sorted(ls.remove(i)),
        as_map(ls.remove(i)) == as_map(ls).remove(ls[i].0),
{
    let k = ls[i].0;
    let after = ls.remove(i);
    assert forall|a: int, b: int| 0 <= a < b < after.len() implies name_lt(
        (#[trigger] after[a]).0,
        (#[trigger] after[b]).0,
    ) by {
        let a0 = if a < i { a } else { a + 1 };
        let b0 = if b < i { b } else { b + 1 };
        assert(after[a] == ls[a0]);
        assert(after[b] == ls[b0]);
        assert(name_lt(ls[a0].0, ls[b0].0));
    }
    lemma_name_lt_irreflexive(k);
    assert forall|q: Seq<char>| as_map(after).contains_key(q) <==> as_map(ls).remove(
        k,
    ).contains_key(q) by {
        if has_name(after, q) {
            let j = index_of(after, q);
            let j0 = if j < i { j } else { j + 1 };
            assert(after[j] == ls[j0]);
            if j0 < i {
                assert(name_lt(ls[j0].0, ls[i].0));
            } else {
                assert(name_lt(ls[i].0, ls[j0].0));
            }
        }
        if has_name(ls, q) && q != k {
            let j = index_of(ls, q);
            if j < i {
                assert(after[j] == ls[j]);
            } else {
                assert(after[j - 1] == ls[j]);
            }
        }
    }
    assert forall|q: Seq<char>| as_map(after).contains_key(q) implies as_map(after)[q] == as_map(
        ls,
    ).remove(k)[q] by {
        let j = index_of(after, q);
        let j0 = if j < i { j } else { j + 1 };
        assert(after[j] == ls[j0]);
        lemma_lookup(after, j);
        lemma_lookup(ls, j0);
    }
    assert(as_map(after) =~= as_map(ls).remove(k));
}

/// Two sorted lists that make the same mapping are the same list.
pub proof fn lemma_sorted_lines_unique(a: Seq<Line>, b: Seq<Line>)
    requires
        sorted(a),
        sorted(b),
        as_map(a) == as_map(b),
    ensures
        a == b,
    decreases a.len(),
{
    if a.len() == 0 {
        if b.len() > 0 {
            lemma_lookup(b, 0);
            assert(has_name(a, b[0].0));
        }
        assert(a =~= b);
    } else if b.len() == 0 {
        lemma_lookup(a, 0);
        assert(has_name(b, a[0].0));
    } else {
        let n = a.len() - 1;
        let m = b.len() - 1;
        lemma_lookup(a, n);
        lemma_lookup(b, m);
        // The last names are the greatest of the same set of names.
        assert(has_name(b, a[n].0));
        assert(has_name(a, b[m].0));
        let p = index_of(b, a[n].0);
        let q = index_of(a, b[m].0);
        lemma_name_lt_irreflexive(a[n].0);
        if p < m {
            assert(name_lt(b[p].0, b[m].0));
            if q < n {
                assert(name_lt(a[q].0, a[n].0));
                lemma_name_lt_transitive(a[n].0, b[m].0, a[n].0);
            }
        }
        assert(a[n].0 == b[m].0);
        assert(a[n] == b[m]);
        lemma_remove(a, n);
        lemma_remove(b, m);
        assert(a.remove(n) =~= a.drop_last());
        assert(b.remove(m) =~= b.drop_last());
        lemma_sorted_lines_unique(a.drop_last(), b.drop_last());
        assert(a =~= a.drop_last().push(a[n]));
        assert(b =~= b.drop_last().push(b[m]));
    }
}

/// The fields of the mapping `m` in the order of their names.
pub open spec fn lines_of(m: Map<Seq<char>, Seq<Seq<char>>>) -> Seq<Line> {
    choose|ls: Seq<Line>| sorted(ls) && as_map(ls) == m
}

/// A sorted list is the list of the fields of its mapping.
pub proof fn lemma_lines_of(ls: Seq<Line>)
    requires
        sorted(ls),
    ensures
        lines_of(as_map(ls)) == ls,
{
    let chosen = lines_of(as_map(ls));
    lemma_sorted_lines_unique(chosen, ls);
}

/// The values of a field in a row, with commas between them.
fn join_values(values: &Vec<String>) -> (r: String)
    ensures
        r@ == join(texts(values@), ','),
{
    let ghost parts = texts(values@);
    let mut out = String::new();
    let mut i: usize = 0;
    assert(parts.take(0) =~= Seq::<Seq<char>>::empty());
    while i < values.len()
        invariant
            i <= values@.len(),
            parts == texts(values@),
            out@ == join(parts.take(i as int), ','),
        decreases values@.len() - i,
    {
        let ghost before = out@;
        if i > 0 {
            proof {
                reveal_strlit(",");
            }
            out.append(",");
            assert(out@ =~= before + seq![',']);
        }
        out.append(values[i].as_str());
        proof {
            let now = parts.take(i + 1);
            assert(now.drop_last() =~= parts.take(i as int));
            assert(now.last() == values@[i as int]@);
            if i == 0 {
                assert(out@ =~= now[0]);
            }
        }
        i = i + 1;
    }
    assert(parts.take(i as int) =~= parts);
    out
}

/// Reads one header line, given without its newline.
pub fn parse_field(line: &Vec<char>) -> (r: Result<(String, String), ReadError>)
    ensures
        match r {
            Ok((name, value)) => parse_line(line@) == Ok::<(Seq<char>, Seq<char>), Seq<char>>(
                (name@, value@),
            ),
            Err(e) => parse_line(line@) matches Err(text) && e@ == Failure::Format(text),
        },
{
    let end = skip_trailing(line, 0, line.len(), '\r');
    let colon = find_char(line, 0, end, ':');
    let ghost clean = line@.subrange(0, end as int);
    assert(line@.subrange(0, line@.len() as int) =~= line@);
    if colon >= end {
        return Err(
            ReadError::Format(
                String::from_str("invalid number of header field parts. Expected 2, got 1"),
            ),
        );
    }
    let stop = find_char(line, colon + 1, end, ':');
    let ghost after = clean.skip(colon as int + 1);
    assert(after =~= line@.subrange(colon as int + 1, end as int));
    assert(clean.take(colon as int) =~= line@.subrange(0, colon as int));
    assert(after.take(prefix_len(after, ':') as int) =~= line@.subrange(
        colon as int + 1,
        stop as int,
    ));
    let raw_name = unescape_chars(line, 0, colon);
    let raw_value = unescape_chars(line, colon + 1, stop);
    assert(raw_name@.subrange(0, raw_name@.len() as int) =~= raw_name@);
    assert(raw_value@.subrange(0, raw_value@.len() as int) =~= raw_value@);
    let from = skip_whitespace(&raw_name, 0, raw_name.len());
    let to = skip_whitespace_back(&raw_name, from, raw_name.len());
    if from == to {
        assert(raw_name@.subrange(from as int, to as int).len() == 0);
        return Err(ReadError::Format(String::from_str("empty header field name")));
    }
    let name = from_chars(&raw_name, from, to);
    let start = skip_whitespace(&raw_value, 0, raw_value.len());
    let value = from_chars(&raw_value, start, raw_value.len());
    Ok((name, value))
}

#[derive(Debug, PartialEq, Eq)]
struct Entry {
    name: String,
    values: Vec<String>,
}

impl Entry {
    /// The field as plain values.
    spec fn line(self) -> Line {
        (self.name@, texts(self.values@))
    }
}

/// The fields as plain values, in their order.
spec fn lines(fields: Seq<Entry>) -> Seq<Line> {
    fields.map_values(|e: Entry| e.line())
}

/// Where the field named `key` stands, or would stand.
fn locate(fields: &Vec<Entry>, key: &str) -> (r: (usize, bool))
    requires
        sorted(lines(fields@)),
    ensures
        r.0 <= fields@.len(),
        forall|j: int| 0 <= j < r.0 ==> name_lt((#[trigger] lines(fields@)[j]).0, key@),
        forall|j: int|
            r.0 + (if r.1 { 1int } else { 0int }) <= j < fields@.len() ==> name_lt(
                key@,
                (#[trigger] lines(fields@)[j]).0,
            ),
        r.1 ==> r.0 < fields@.len() && lines(fields@)[r.0 as int].0 == key@,
{
    let ghost ls = lines(fields@);
    let mut i: usize = 0;
    while i < fields.len()
        invariant
            i <= fields@.len(),
            ls == lines(fields@),
            sorted(ls),
            forall|j: int| 0 <= j < i ==> name_lt((#[trigger] ls[j]).0, key@),
        decreases fields@.len() - i,
    {
        match rank(fields[i].name.as_str(), key) {
            Rank::Before => {
                i = i + 1;
            },
            Rank::Same => {
                assert(ls[i as int].0 == key@);
                assert forall|j: int| i + 1 <= j < fields@.len() implies name_lt(
                    key@,
                    (#[trigger] ls[j]).0,
                ) by {
                    assert(name_lt(ls[i as int].0, ls[j].0));
                }
                return (i, true);
            },
            Rank::After => {
                assert(name_lt(key@, ls[i as int].0));
                assert forall|j: int| i <= j < fields@.len() implies name_lt(
                    key@,
                    (#[trigger] ls[j]).0,
                ) by {
                    if j > i {
                        assert(name_lt(ls[i as int].0, ls[j].0));
                        lemma_name_lt_transitive(key@, ls[i as int].0, ls[j].0);
                    }
                }
                return (i, false);
            },
        }
    }
    (i, false)
}

/// Gives the field named `key` the values `values`, at its place in the
/// order.
fn put(fields: &mut Vec<Entry>, key: &str, values: Vec<String>)
    requires
        sorted(lines(old(fields)@)),
    ensures
        sorted(lines(final(fields)@)),
        as_map(lines(final(fields)@)) == as_map(lines(old(fields)@)).insert(key@, texts(values@)),
{
    let ghost ls = lines(fields@);
    let (i, found) = locate(fields, key);
    let entry = Entry { name: String::from_str(key), values };
    if found {
        fields.set(i, entry);
        proof {
            lemma_update(ls, i as int, texts(values@));
            assert(lines(fields@) =~= ls.update(i as int, (key@, texts(values@))));
        }
    } else {
        fields.insert(i, entry);
        proof {
            lemma_insert(ls, i as int, key@, texts(values@));
            assert(lines(fields@) =~= ls.insert(i as int, (key@, texts(values@))));
        }
    }
}

/// The header of a frame.
#[derive(Debug, PartialEq, Eq)]
pub struct Header {
    fields: Vec<Entry>,
}

impl View for Header {
    type V = Map<Seq<char>, Seq<Seq<char>>>;

    /// The header as a mapping from names to lists of values.
    closed spec fn view(&self) -> Map<Seq<char>, Seq<Seq<char>>> {
        as_map(self.entries())
    }
}

impl Header {
    /// The fields are kept in the order of their names.
    #[verifier::type_invariant]
    spec fn inv(self) -> bool {
        sorted(lines(self.fields@))
    }

    /// The fields in the order in which they are kept and written.
    spec fn entries(&self) -> Seq<Line> {
        lines(self.fields@)
    }

    /// Moves the fields out and leaves the header empty.
    fn take_fields(&mut self) -> (fields: Vec<Entry>)
        ensures
            fields@ == old(self).fields@,
            sorted(lines(fields@)),
            final(self).fields@.len() == 0,
    {
        proof {
            use_type_invariant(&*self);
        }
        let mut fields: Vec<Entry> = Vec::new();
        core::mem::swap(&mut self.fields, &mut fields);
        fields
    }

    /// Makes `fields` the fields of the header.
    fn give_fields(&mut self, fields: Vec<Entry>)
        requires
            sorted(lines(fields@)),
        ensures
            final(self).fields@ == fields@,
    {
        let mut fields = fields;
        core::mem::swap(&mut self.fields, &mut fields);
    }

    /// A header without fields.
    pub fn new() -> (h: Header)
        ensures
            h@ == Map::<Seq<char>, Seq<Seq<char>>>::empty(),
    {
        let h = Header { fields: Vec::new() };
        assert(h.entries() =~= Seq::<Line>::empty());
        assert(h@ =~= Map::<Seq<char>, Seq<Seq<char>>>::empty());
        h
    }

    /// The values recorded under `key`, if there are any.
    pub fn get_field(&self, key: &str) -> (r: Option<&Vec<String>>)
        ensures
            match r {
                Some(values) => self@.contains_key(key@) && texts(values@) == self@[key@],
                None => !self@.contains_key(key@),
            },
    {
        proof {
            use_type_invariant(self);
        }
        let (i, found) = locate(&self.fields, key);
        if found {
            proof {
                lemma_lookup(self.entries(), i as int);
            }
            Some(&self.fields[i].values)
        } else {
            proof {
                lemma_absent(self.entries(), i as int, key@);
            }
            None
        }
    }

    /// Appends `value` to the values recorded under `key`; the first value
    /// makes the field.
    pub fn add_field(&mut self, key: &str, value: &str)
        ensures
            final(self)@ == old(self)@.insert(
                key@,
                if old(self)@.contains_key(key@) {
                    old(self)@[key@].push(value@)
                } else {
                    seq![value@]
                },
            ),
    {
        proof {
            use_type_invariant(&*self);
        }
        let ghost ls = self.entries();
        let (i, found) = locate(&self.fields, key);
        let mut fields = self.take_fields();
        if found {
            let mut entry = fields.remove(i);
            let ghost before = texts(entry.values@);
            entry.values.push(String::from_str(value));
            assert(texts(entry.values@) =~= before.push(value@));
            fields.insert(i, entry);
            proof {
                lemma_lookup(ls, i as int);
                lemma_update(ls, i as int, before.push(value@));
                assert(lines(fields@) =~= ls.update(i as int, (key@, before.push(value@))));
            }
        } else {
            let mut values: Vec<String> = Vec::new();
            values.push(String::from_str(value));
            assert(texts(values@) =~= seq![value@]);
            fields.insert(i, Entry { name: String::from_str(key), values });
            proof {
                lemma_absent(ls, i as int, key@);
                lemma_insert(ls, i as int, key@, seq![value@]);
                assert(lines(fields@) =~= ls.insert(i as int, (key@, seq![value@])));
            }
        }
        self.give_fields(fields);
    }

    /// Records `values` under `key`, in place of what was recorded there.
    pub fn set_field(&mut self, key: &str, values: Vec<String>)
        ensures
            final(self)@ == old(self)@.insert(key@, texts(values@)),
    {
        let mut fields = self.take_fields();
        put(&mut fields, key, values);
        self.give_fields(fields);
    }

    /// Removes the field named `key`, if there is one.
    pub fn remove_field(&mut self, key: &str)
        ensures
            final(self)@ == old(self)@.remove(key@),
    {
        proof {
            use_type_invariant(&*self);
        }
        let ghost ls = self.entries();
        let (i, found) = locate(&self.fields, key);
        if found {
            let mut fields = self.take_fields();
            fields.remove(i);
            proof {
                lemma_remove(ls, i as int);
                assert(lines(fields@) =~= ls.remove(i as int));
            }
            self.give_fields(fields);
        } else {
            proof {
                lemma_absent(ls, i as int, key@);
                assert(self@ =~= old(self)@.remove(key@));
            }
        }
    }
}

impl Default for Header {
    /// A header without fields.
    fn default() -> (h: Header)
        ensures
            h@ == Map::<Seq<char>, Seq<Seq<char>>>::empty(),
    {
        Header::new()
    }
}

impl Header {
    /// Writes the header to `w`, one line for each field, in the order of
    /// the names whatever the order in which the fields were added.  Returns
    /// the number of bytes written.
    pub fn write_to(&self, w: &mut Vec<u8>) -> (n: u64)
        ensures
            final(w)@ == old(w)@ + header_wire(lines_of(self@)),
            n == header_wire(lines_of(self@)).len(),
            sorted(lines_of(self@)),
            as_map(lines_of(self@)) == self@,
    {
        proof {
            use_type_invariant(self);
            lemma_lines_of(self.entries());
        }
        let ghost ls = self.entries();
        let ghost start = w@;
        let start_len = w.len();
        let mut i: usize = 0;
        assert(ls.skip(0) =~= ls);
        while i < self.fields.len()
            invariant
                i <= self.fields@.len(),
                ls == lines(self.fields@),
                start_len == start.len(),
                w@ + header_wire(ls.skip(i as int)) == start + header_wire(ls),
            decreases self.fields@.len() - i,
        {
            let entry = &self.fields[i];
            let mut line = encode(entry.name.as_str());
            proof {
                reveal_strlit(": ");
                reveal_strlit("\n");
            }
            line.append(": ");
            let joined = join_values(&entry.values);
            let value = encode(joined.as_str());
            line.append(value.as_str());
            line.append("\n");
            assert(line@ =~= field_line(ls[i as int]));
            let ghost before = w@;
            w.extend_from_slice(line.as_str().as_bytes());
            proof {
                assert(ls.skip(i as int).drop_first() =~= ls.skip(i + 1));
                assert(ls.skip(i as int)[0] == ls[i as int]);
                assert(w@ + header_wire(ls.skip(i + 1)) =~= before + header_wire(
                    ls.skip(i as int),
                ));
            }
            i = i + 1;
        }
        assert(w@ + header_wire(ls.skip(i as int)) =~= w@);
        let end_len = w.len();
        assert(end_len == start_len + header_wire(ls).len());
        (end_len - start_len) as u64
    }

    /// Reads a header block from `reader`: lines of `name: value` up to the
    /// first empty line, or to the end of the input.  Gives back the header
    /// and the reader, which stands after the empty line.
    pub fn read_from(reader: MemReader) -> (r: Result<(Header, MemReader), ReadError>)
        ensures
            match r {
                Ok((header, rest)) => parse_header(reader.remaining()) == Ok::<
                    (Map<Seq<char>, Seq<Seq<char>>>, Seq<u8>),
                    Failure,
                >((header@, rest.remaining())) && rest.chunk_size() == reader.chunk_size(),
                Err(e) => parse_header(reader.remaining()) == Err::<
                    (Map<Seq<char>, Seq<Seq<char>>>, Seq<u8>),
                    Failure,
                >(e@),
            },
    {
        let ghost whole = parse_header(reader.remaining());
        let mut limited = LimitedReader::new(reader, MAX_HEADER_SIZE);
        let mut header = Header::new();
        loop
            invariant_except_break
                parse_block(limited.source().remaining(), limited.budget(), header@) == whole,
            invariant
                whole == parse_header(reader.remaining()),
                limited.source().chunk_size() == reader.chunk_size(),
            ensures
                whole == Ok::<(Map<Seq<char>, Seq<Seq<char>>>, Seq<u8>), Failure>(
                    (header@, limited.source().remaining()),
                ),
                limited.source().chunk_size() == reader.chunk_size(),
            decreases limited.source().remaining().len(),
        {
            let ghost rest = limited.source().remaining();
            let ghost budget = limited.budget();
            let ghost fields = header@;
            proof {
                lemma_prefix_len(rest, EOL);
            }
            let mut line_reader = DelimitedReader::new(limited, EOL);
            let mut buffer: Vec<u8> = Vec::new();
            let outcome = line_reader.read_to_end(&mut buffer);
            limited = line_reader.into_inner();
            match outcome {
                Err(e) => {
                    return Err(e);
                },
                Ok(n) => {
                    if n < 1 {
                        break;
                    }
                },
            }
            assert(buffer@ =~= rest.take(prefix_len(rest, EOL) as int));
            let chars = match decode_text(buffer.as_slice()) {
                Some(chars) => chars,
                None => {
                    return Err(ReadError::Encoding);
                },
            };
            match parse_field(&chars) {
                Err(e) => {
                    return Err(e);
                },
                Ok((name, value)) => {
                    header.add_field(name.as_str(), value.as_str());
                    assert(header@ == added(fields, name@, value@));
                },
            }
        }
        Ok((header, limited.into_inner()))
    }
}

} // verus!
