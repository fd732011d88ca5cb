//! The header map: names to values, with the last write for a name winning.
use vstd::prelude::*;
use crate::errors::ParseError;
use crate::text::{chars_of, find, find_char, lemma_find_char, push_str, trim, trimmed};

verus! {

/// A header as a pair of name and value.
pub type Entry = (Seq<char>, Seq<char>);

/// The map that a list of entries stands for: each entry overrides the
/// earlier entries with the same name.
pub open spec fn map_of(e: Seq<Entry>) -> Map<Seq<char>, Seq<char>>
    decreases e.len(),
{
    if e.len() == 0 {
        Map::empty()
    } else {
        map_of(e.drop_last()).insert(e.last().0, e.last().1)
    }
}

/// The entries after setting `name` to `value`: an entry of that name gets
/// the new value in its place; where there is none, a new entry goes last.
pub open spec fn set_entry(e: Seq<Entry>, name: Seq<char>, value: Seq<char>) -> Seq<Entry> {
    if exists|i: int| 0 <= i < e.len() && e[i].0 == name {
        let i = choose|i: int| 0 <= i < e.len() && e[i].0 == name;
        e.update(i, (name, value))
    } else {
        e.push((name, value))
    }
}

/// No two entries share a name.
pub open spec fn names_distinct(e: Seq<Entry>) -> bool {
    forall|i: int, j: int| 0 <= i < j < e.len() ==> e[i].0 != e[j].0
}

/// The wire form of the entries: `name: value` and CRLF for each, in order.
pub open spec fn render_entries(e: Seq<Entry>) -> Seq<char>
    decreases e.len(),
{
    if e.len() == 0 {
        Seq::empty()
    } else {
        render_entries(e.drop_last()) + e.last().0 + seq![':', ' '] + e.last().1 + seq!['\r', '\n']
    }
}

/// The name and value of a header line: the text before the first colon and
/// the text after it, each trimmed; none where the line has no colon.
pub open spec fn split_header(line: Seq<char>) -> Option<Entry> {
    let c = find_char(line, ':', 0);
    if c == -1 {
        None
    } else {
        Some((trim(line.subrange(0, c)), trim(line.subrange(c + 1, line.len() as int))))
    }
}

/// Every header line is empty or has a colon.
pub open spec fn header_lines_valid(lines: Seq<Seq<char>>) -> bool {
    forall|i: int| 0 <= i < lines.len() ==> lines[i].len() == 0 || split_header(lines[i]) is Some
}

/// Every line has a colon; an empty line has none.
pub open spec fn all_have_colon(lines: Seq<Seq<char>>) -> bool {
    forall|i: int| 0 <= i < lines.len() ==> split_header(#[trigger] lines[i]) is Some
}

/// The map that the header lines give, in order, skipping empty lines.
pub open spec fn header_map(lines: Seq<Seq<char>>) -> Map<Seq<char>, Seq<char>>
    decreases lines.len(),
{
    if lines.len() == 0 {
        Map::empty()
    } else {
        let m = header_map(lines.drop_last());
        match split_header(lines.last()) {
            Some(e) => m.insert(e.0, e.1),
            None => m,
        }
    }
}

proof fn lemma_map_of_domain(e: Seq<Entry>)
    ensures
        map_of(e).dom().finite(),
        forall|k: Seq<char>| #[trigger] map_of(e).contains_key(k) <==> exists|i: int| 0 <= i < e.len() && e[i].0 == k,
        names_distinct(e) ==> map_of(e).dom().len() == e.len(),
        names_distinct(e) ==> forall|i: int| 0 <= i < e.len() ==> map_of(e)[#[trigger] e[i].0] == e[i].1,
    decreases e.len(),
{
    if e.len() > 0 {
        let d = e.drop_last();
        lemma_map_of_domain(d);
        assert forall|k: Seq<char>| #[trigger] map_of(e).contains_key(k) <==> exists|i: int| 0 <= i < e.len() && e[i].0 == k by {
            if map_of(e).contains_key(k) && k != e.last().0 {
                let i = choose|i: int| 0 <= i < d.len() && d[i].0 == k;
                assert(e[i].0 == k);
            }
            if exists|i: int| 0 <= i < e.len() && e[i].0 == k {
                let i = choose|i: int| 0 <= i < e.len() && e[i].0 == k;
                if i < d.len() {
                    assert(d[i].0 == k);
                }
            }
        }
        if names_distinct(e) {
            assert(names_distinct(d));
            if map_of(d).contains_key(e.last().0) {
                let i = choose|i: int| 0 <= i < d.len() && d[i].0 == e.last().0;
                assert(e[i].0 == e[e.len() - 1].0);
            }
            assert forall|i: int| 0 <= i < e.len() implies map_of(e)[#[trigger] e[i].0] == e[i].1 by {
                if i < d.len() {
                    assert(d[i].0 == e[i].0);
                    assert(e[i].0 != e[e.len() - 1].0);
                }
            }
        }
    }
}

proof fn lemma_map_of_update(e: Seq<Entry>, i: int, v: Seq<char>)
    requires
        names_distinct(e),
        0 <= i < e.len(),
    ensures
        map_of(e.update(i, (e[i].0, v))) == map_of(e).insert(e[i].0, v),
    decreases e.len(),
{
    let u = e.update(i, (e[i].0, v));
    if i == e.len() - 1 {
        assert(u.drop_last() =~= e.drop_last());
        assert(map_of(u) =~= map_of(e).insert(e[i].0, v));
    } else {
        let d = e.drop_last();
        assert(u.drop_last() =~= d.update(i, (d[i].0, v)));
        lemma_map_of_update(d, i, v);
        assert(e[i].0 != e[e.len() - 1].0);
        assert(map_of(u) =~= map_of(e).insert(e[i].0, v));
    }
}

/// A map from header name to header value. Names are compared exactly, so
/// `Host` and `host` are two names. Entries keep the order in which their
/// names were first inserted, which fixes the order in which they render.
#[derive(Debug)]
pub struct Headers {
    entries: Vec<(String, String)>,
}

impl View for Headers {
    type V = Map<Seq<char>, Seq<char>>;

    closed spec fn view(&self) -> Map<Seq<char>, Seq<char>> {
        map_of(self.entries_spec())
    }
}

impl Headers {
    /// The entries in rendering order.
    pub closed spec fn entries_spec(&self) -> Seq<Entry> {
        self.entries@.map_values(|e: (String, String)| (e.0@, e.1@))
    }

    /// The invariant: no name occurs twice.
    pub open spec fn wf(&self) -> bool {
        names_distinct(self.entries_spec())
    }

    /// The wire form of the headers.
    pub open spec fn rendered(&self) -> Seq<char> {
        render_entries(self.entries_spec())
    }

    /// An empty map.
    pub fn new() -> (r: Headers)
        ensures
            r.wf(),
            r@ == Map::<Seq<char>, Seq<char>>::empty(),
            r.entries_spec() == Seq::<Entry>::empty(),
    {
        let r = Headers { entries: Vec::new() };
        assert(r.entries_spec() =~= Seq::<Entry>::empty());
        r
    }

    /// The number of names held.
    pub fn len(&self) -> (r: usize)
        requires
            self.wf(),
        ensures
            r as nat == self@.dom().len(),
    {
        proof {
            lemma_map_of_domain(self.entries_spec());
        }
        self.entries.len()
    }

    /// Whether no name is held.
    pub fn is_empty(&self) -> (r: bool)
        requires
            self.wf(),
        ensures
            r == (self@.dom().len() == 0),
    {
        self.len() == 0
    }

    fn index_of(&self, name: &str) -> (r: Option<usize>)
        requires
            self.wf(),
        ensures
            match r {
                Some(i) => i < self.entries_spec().len() && self.entries_spec()[i as int].0 == name@,
                None => !self@.contains_key(name@),
            },
    {
        proof {
            lemma_map_of_domain(self.entries_spec());
        }
        let key = name.to_owned();
        let mut i: usize = 0;
        while i < self.entries.len()
            invariant
                key@ == name@,
                i <= self.entries_spec().len(),
                self.entries_spec().len() == self.entries@.len(),
                forall|j: int| 0 <= j < i ==> self.entries_spec()[j].0 != name@,
            decreases self.entries@.len() - i,
        {
            if self.entries[i].0 == key {
                return Some(i);
            }
            i = i + 1;
        }
        None
    }

    /// The value held for `name`, if any.
    pub fn get(&self, name: &str) -> (r: Option<&String>)
        requires
            self.wf(),
        ensures
            r is Some <==> self@.contains_key(name@),
            r is Some ==> r->0@ == self@[name@],
    {
        match self.index_of(name) {
            Some(i) => {
                proof {
                    lemma_map_of_domain(self.entries_spec());
                }
                Some(&self.entries[i].1)
            },
            None => None,
        }
    }

    /// Whether a value is held for `name`.
    pub fn contains_key(&self, name: &str) -> (r: bool)
        requires
            self.wf(),
        ensures
            r == self@.contains_key(name@),
    {
        self.get(name).is_some()
    }

    /// Sets the value for `name`, replacing an earlier one. A new name goes
    /// last in rendering order; a name already held keeps its place.
    pub fn insert(&mut self, name: String, value: String)
        requires
            old(self).wf(),
        ensures
            final(self).wf(),
            final(self)@ == old(self)@.insert(name@, value@),
            final(self).entries_spec() == set_entry(old(self).entries_spec(), name@, value@),
    {
        let ghost before = self.entries_spec();
        proof {
            lemma_map_of_domain(before);
        }
        match self.index_of(name.as_str()) {
            Some(i) => {
                let ghost nv = name@;
                let ghost vv = value@;
                self.entries.set(i, (name, value));
                assert(self.entries_spec() =~= before.update(i as int, (nv, vv)));
                proof {
                    let j = choose|j: int| 0 <= j < before.len() && before[j].0 == nv;
                    assert(j == i);
                    lemma_map_of_update(before, i as int, vv);
                }
                assert(self.wf());
            },
            None => {
                let ghost nv = name@;
                let ghost vv = value@;
                self.entries.push((name, value));
                assert(self.entries_spec() =~= before.push((nv, vv)));
                assert(!exists|j: int| 0 <= j < before.len() && before[j].0 == nv);
                assert(self.entries_spec().drop_last() =~= before);
                assert(self.wf()) by {
                    assert forall|i: int, j: int| 0 <= i < j < self.entries_spec().len()
                        implies self.entries_spec()[i].0 != self.entries_spec()[j].0 by {
                        if j == before.len() {
                            assert(before[i].0 != nv);
                        }
                    }
                }
            },
        }
    }

    /// The wire form: `name: value` and CRLF for each header, in order.
    pub fn render(&self) -> (r: String)
        ensures
            r@ == self.rendered(),
    {
        let mut s = String::new();
        let mut i: usize = 0;
        while i < self.entries.len()
            invariant
                i <= self.entries@.len(),
                self.entries_spec().len() == self.entries@.len(),
                s@ == render_entries(self.entries_spec().subrange(0, i as int)),
            decreases self.entries@.len() - i,
        {
            let ghost e = self.entries_spec();
            assert(e.subrange(0, i + 1).drop_last() =~= e.subrange(0, i as int));
            push_str(&mut s, self.entries[i].0.as_str());
            push_str(&mut s, ": ");
            push_str(&mut s, self.entries[i].1.as_str());
            push_str(&mut s, "\r\n");
            proof {
                reveal_strlit(": ");
                reveal_strlit("\r\n");
            }
            i = i + 1;
            assert(s@ =~= render_entries(e.subrange(0, i as int)));
        }
        assert(self.entries_spec().subrange(0, i as int) =~= self.entries_spec());
        s
    }

    /// Adds the header line `v[lo..hi]`: nothing where it is empty, its name
    /// and value where it has a colon. Returns false, and changes nothing,
    /// where a non-empty line has no colon.
    pub fn add_line(&mut self, v: &Vec<char>, lo: usize, hi: usize) -> (ok: bool)
        requires
            old(self).wf(),
            lo <= hi <= v@.len(),
        ensures
            final(self).wf(),
            ok == (v@.subrange(lo as int, hi as int).len() == 0
                || split_header(v@.subrange(lo as int, hi as int)) is Some),
            final(self)@ == match split_header(v@.subrange(lo as int, hi as int)) {
                Some(e) => old(self)@.insert(e.0, e.1),
                None => old(self)@,
            },
    {
        let ghost line = v@.subrange(lo as int, hi as int);
        if lo == hi {
            return true;
        }
        let found = find(v, ':', lo);
        proof {
            lemma_find_char(v@, ':', lo as int);
            lemma_find_char(line, ':', 0);
        }
        let c: usize = match found {
            Some(c) => c,
            None => hi,
        };
        if c < hi {
            proof {
                assert(line[c - lo] == ':');
                assert(find_char(line, ':', 0) == c - lo);
                assert(line.subrange(0, c - lo) =~= v@.subrange(lo as int, c as int));
                assert(line.subrange(c - lo + 1, line.len() as int) =~= v@.subrange(c + 1, hi as int));
            }
            let name = trimmed(v, lo, c);
            let value = trimmed(v, c + 1, hi);
            self.insert(name, value);
            true
        } else {
            proof {
                if find_char(line, ':', 0) != -1 {
                    assert(v@[lo + find_char(line, ':', 0)] == ':');
                }
            }
            false
        }
    }

    /// Builds the map from header lines, in order. Fails with
    /// `ParseError::Headers` where a line has no colon, an empty line included.
    pub fn parse_headers(raw_headers: &[&str]) -> (r: Result<Headers, ParseError>)
        ensures
            r is Ok <==> all_have_colon(raw_headers@.map_values(|l: &str| l@)),
            r is Err ==> r == Err::<Headers, ParseError>(ParseError::Headers),
            r matches Ok(h) ==> h.wf() && h@ == header_map(raw_headers@.map_values(|l: &str| l@)),
    {
        let ghost lines = raw_headers@.map_values(|l: &str| l@);
        let mut headers = Headers::new();
        let mut i: usize = 0;
        while i < raw_headers.len()
            invariant
                i <= raw_headers@.len(),
                lines == raw_headers@.map_values(|l: &str| l@),
                headers.wf(),
                all_have_colon(lines.subrange(0, i as int)),
                headers@ == header_map(lines.subrange(0, i as int)),
            decreases raw_headers@.len() - i,
        {
            let line = chars_of(raw_headers[i]);
            assert(lines.subrange(0, i + 1).drop_last() =~= lines.subrange(0, i as int));
            assert(line@.subrange(0, line@.len() as int) =~= lines[i as int]);
            if line.len() == 0 || !headers.add_line(&line, 0, line.len()) {
                assert(split_header(lines[i as int]) is None) by {
                    if line.len() == 0 {
                        assert(lines[i as int].len() == 0);
                    }
                }
                assert(!all_have_colon(lines));
                return Err(ParseError::Headers);
            }
            assert(all_have_colon(lines.subrange(0, i + 1))) by {
                assert forall|j: int| 0 <= j < i + 1 implies split_header(
                    #[trigger] lines.subrange(0, i + 1)[j],
                ) is Some by {
                    if j < i {
                        assert(lines.subrange(0, i + 1)[j] == lines.subrange(0, i as int)[j]);
                    }
                }
            }
            i = i + 1;
        }
        assert(lines.subrange(0, i as int) =~= lines);
        Ok(headers)
    }
}

/// Appending a valid line keeps the lines valid.
pub proof fn lemma_lines_valid_push(lines: Seq<Seq<char>>, line: Seq<char>)
    requires
        header_lines_valid(lines),
        line.len() == 0 || split_header(line) is Some,
    ensures
        header_lines_valid(lines.push(line)),
{
    assert forall|j: int| 0 <= j < lines.push(line).len() implies #[trigger] lines.push(line)[j].len() == 0
        || split_header(lines.push(line)[j]) is Some by {
        if j < lines.len() {
            assert(lines.push(line)[j] == lines[j]);
        }
    }
}

} // verus!
