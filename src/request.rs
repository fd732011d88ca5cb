//! The request line and header parser, and the request it produces.
use vstd::prelude::*;
use crate::errors::ParseError;
use crate::headers::{header_lines_valid, header_map, lemma_lines_valid_push, map_of, render_entries, split_header, Entry, Headers};
use crate::text::{chars_of, find, find_char, is_space, lemma_find_char, same_chars, string_of, trim, trim_end, trim_start};

verus! {

/// The nine standard HTTP request methods.
#[derive(Debug, Clone, Copy, PartialEq, Eq, Structural)]
pub enum HttpMethod {
    Get,
    Head,
    Post,
    Put,
    Delete,
    Connect,
    Options,
    Trace,
    Patch,
}

/// The token that names a method on the wire.
pub open spec fn method_token(m: HttpMethod) -> Seq<char> {
    match m {
        HttpMethod::Get => seq!['G', 'E', 'T'],
        HttpMethod::Head => seq!['H', 'E', 'A', 'D'],
        HttpMethod::Post => seq!['P', 'O', 'S', 'T'],
        HttpMethod::Put => seq!['P', 'U', 'T'],
        HttpMethod::Delete => seq!['D', 'E', 'L', 'E', 'T', 'E'],
        HttpMethod::Connect => seq!['C', 'O', 'N', 'N', 'E', 'C', 'T'],
        HttpMethod::Options => seq!['O', 'P', 'T', 'I', 'O', 'N', 'S'],
        HttpMethod::Trace => seq!['T', 'R', 'A', 'C', 'E'],
        HttpMethod::Patch => seq!['P', 'A', 'T', 'C', 'H'],
    }
}

/// The method that a token names, matched case-sensitively.
pub open spec fn method_of(t: Seq<char>) -> Option<HttpMethod> {
    if t == method_token(HttpMethod::Get) {
        Some(HttpMethod::Get)
    } else if t == method_token(HttpMethod::Head) {
        Some(HttpMethod::Head)
    } else if t == method_token(HttpMethod::Post) {
        Some(HttpMethod::Post)
    } else if t == method_token(HttpMethod::Put) {
        Some(HttpMethod::Put)
    } else if t == method_token(HttpMethod::Delete) {
        Some(HttpMethod::Delete)
    } else if t == method_token(HttpMethod::Connect) {
        Some(HttpMethod::Connect)
    } else if t == method_token(HttpMethod::Options) {
        Some(HttpMethod::Options)
    } else if t == method_token(HttpMethod::Trace) {
        Some(HttpMethod::Trace)
    } else if t == method_token(HttpMethod::Patch) {
        Some(HttpMethod::Patch)
    } else {
        None
    }
}

impl HttpMethod {
    /// The characters of the method's token.
    pub fn token(&self) -> (r: Vec<char>)
        ensures
            r@ == method_token(*self),
    {
        let r = match self {
            HttpMethod::Get => vec!['G', 'E', 'T'],
            HttpMethod::Head => vec!['H', 'E', 'A', 'D'],
            HttpMethod::Post => vec!['P', 'O', 'S', 'T'],
            HttpMethod::Put => vec!['P', 'U', 'T'],
            HttpMethod::Delete => vec!['D', 'E', 'L', 'E', 'T', 'E'],
            HttpMethod::Connect => vec!['C', 'O', 'N', 'N', 'E', 'C', 'T'],
            HttpMethod::Options => vec!['O', 'P', 'T', 'I', 'O', 'N', 'S'],
            HttpMethod::Trace => vec!['T', 'R', 'A', 'C', 'E'],
            HttpMethod::Patch => vec!['P', 'A', 'T', 'C', 'H'],
        };
        assert(r@ =~= method_token(*self));
        r
    }

    /// The method's token as a string, such as `GET`.
    pub fn name(&self) -> (r: String)
        ensures
            r@ == method_token(*self),
    {
        let t = self.token();
        string_of(&t, 0, t.len())
    }

    /// The method that `v[lo..hi]` names, if any.
    pub fn from_chars(v: &Vec<char>, lo: usize, hi: usize) -> (r: Option<HttpMethod>)
        requires
            lo <= hi <= v@.len(),
        ensures
            r == method_of(v@.subrange(lo as int, hi as int)),
    {
        if same_chars(v, lo, hi, &HttpMethod::Get.token()) {
            Some(HttpMethod::Get)
        } else if same_chars(v, lo, hi, &HttpMethod::Head.token()) {
            Some(HttpMethod::Head)
        } else if same_chars(v, lo, hi, &HttpMethod::Post.token()) {
            Some(HttpMethod::Post)
        } else if same_chars(v, lo, hi, &HttpMethod::Put.token()) {
            Some(HttpMethod::Put)
        } else if same_chars(v, lo, hi, &HttpMethod::Delete.token()) {
            Some(HttpMethod::Delete)
        } else if same_chars(v, lo, hi, &HttpMethod::Connect.token()) {
            Some(HttpMethod::Connect)
        } else if same_chars(v, lo, hi, &HttpMethod::Options.token()) {
            Some(HttpMethod::Options)
        } else if same_chars(v, lo, hi, &HttpMethod::Trace.token()) {
            Some(HttpMethod::Trace)
        } else if same_chars(v, lo, hi, &HttpMethod::Patch.token()) {
            Some(HttpMethod::Patch)
        } else {
            None
        }
    }

    /// The method that the token `s` names; `ParseError::HttpMethod` where
    /// it names none.
    pub fn from_token(s: &str) -> (r: Result<HttpMethod, ParseError>)
        ensures
            r == match method_of(s@) {
                Some(m) => Ok(m),
                None => Err(ParseError::HttpMethod),
            },
    {
        let v = chars_of(s);
        assert(v@.subrange(0, v@.len() as int) =~= s@);
        match HttpMethod::from_chars(&v, 0, v.len()) {
            Some(m) => Ok(m),
            None => Err(ParseError::HttpMethod),
        }
    }
}

impl Default for HttpMethod {
    fn default() -> (r: HttpMethod)
        ensures
            r == HttpMethod::Get,
    {
        HttpMethod::Get
    }
}

impl std::str::FromStr for HttpMethod {
    type Err = ParseError;

    fn from_str(s: &str) -> (r: Result<HttpMethod, ParseError>)
        ensures
            r == match method_of(s@) {
                Some(m) => Ok(m),
                None => Err(ParseError::HttpMethod),
            },
    {
        HttpMethod::from_token(s)
    }
}

/// A CRLF pair starts at index `i` of `s`.
pub open spec fn crlf_at(s: Seq<char>, i: int) -> bool {
    0 <= i && i + 1 < s.len() && s[i] == '\r' && s[i + 1] == '\n'
}

/// The first index `i >= from` where a CRLF pair starts, or -1 where there is none.
pub open spec fn find_crlf(s: Seq<char>, from: int) -> int
    decreases s.len() - from,
{
    if from < 0 || from + 1 >= s.len() {
        -1
    } else if crlf_at(s, from) {
        from
    } else {
        find_crlf(s, from + 1)
    }
}

proof fn lemma_find_crlf(s: Seq<char>, from: int)
    requires
        0 <= from,
    ensures
        find_crlf(s, from) == -1 || (from <= find_crlf(s, from) && crlf_at(s, find_crlf(s, from))),
        forall|j: int| from <= j && (find_crlf(s, from) == -1 || j < find_crlf(s, from)) ==> !crlf_at(s, j),
    decreases s.len() - from,
{
    if from + 1 < s.len() && !crlf_at(s, from) {
        lemma_find_crlf(s, from + 1);
    }
}

/// The lines of `s[start..]`, split on CRLF. The text after the last CRLF is
/// the last line, so a block that ends in CRLF has an empty last line.
pub open spec fn lines_from(s: Seq<char>, start: int) -> Seq<Seq<char>>
    decreases s.len() - start,
{
    if start < 0 || start > s.len() {
        Seq::empty()
    } else {
        let k = find_crlf(s, start);
        if k < start || k + 2 > s.len() {
            seq![s.subrange(start, s.len() as int)]
        } else {
            seq![s.subrange(start, k)] + lines_from(s, k + 2)
        }
    }
}

/// The lines of `s`, split on CRLF.
pub open spec fn split_lines(s: Seq<char>) -> Seq<Seq<char>> {
    lines_from(s, 0)
}

/// The text that a list of index ranges of `v` picks out.
pub open spec fn ranges_text(v: Seq<char>, r: Seq<(usize, usize)>) -> Seq<Seq<char>> {
    r.map_values(|p: (usize, usize)| v.subrange(p.0 as int, p.1 as int))
}

/// Every range lies within `0..n` and is not reversed.
pub open spec fn ranges_within(r: Seq<(usize, usize)>, n: nat) -> bool {
    forall|i: int| 0 <= i < r.len() ==> #[trigger] r[i].0 <= r[i].1 && r[i].1 <= n
}

/// The index ranges of the CRLF-separated lines of `v`.
pub fn line_ranges(v: &Vec<char>) -> (r: Vec<(usize, usize)>)
    ensures
        ranges_within(r@, v@.len()),
        ranges_text(v@, r@) == split_lines(v@),
{
    let mut r: Vec<(usize, usize)> = Vec::new();
    let mut start: usize = 0;
    let mut i: usize = 0;
    proof {
        lemma_find_crlf(v@, 0);
    }
    while i < v.len() && i + 1 < v.len()
        invariant
            start <= i <= v@.len(),
            find_crlf(v@, start as int) == find_crlf(v@, i as int),
            ranges_within(r@, v@.len()),
            ranges_text(v@, r@) + lines_from(v@, start as int) == split_lines(v@),
        decreases v@.len() - i,
    {
        if v[i] == '\r' && v[i + 1] == '\n' {
            let ghost before = r@;
            r.push((start, i));
            proof {
                assert(ranges_text(v@, r@) =~= ranges_text(v@, before).push(v@.subrange(start as int, i as int)));
                assert(lines_from(v@, start as int) == seq![v@.subrange(start as int, i as int)] + lines_from(v@, i + 2));
                assert(ranges_text(v@, r@) + lines_from(v@, i + 2) =~= ranges_text(v@, before) + lines_from(v@, start as int));
            }
            start = i + 2;
            i = i + 2;
        } else {
            i = i + 1;
        }
    }
    let ghost before = r@;
    r.push((start, v.len()));
    proof {
        assert(lines_from(v@, start as int) == seq![v@.subrange(start as int, v@.len() as int)]);
        assert(ranges_text(v@, r@) =~= ranges_text(v@, before) + lines_from(v@, start as int));
    }
    r
}

/// The version that a version token gives: the text after `HTTP/`, where the
/// token starts so, has more after it, and holds no space.
pub open spec fn version_of(t: Seq<char>) -> Option<Seq<char>> {
    if t.len() > 5 && t.subrange(0, 5) == seq!['H', 'T', 'T', 'P', '/'] && find_char(t, ' ', 0) == -1 {
        Some(t.subrange(5, t.len() as int))
    } else {
        None
    }
}

/// The method and version of a request line `METHOD SP target SP HTTP/version`:
/// the method token is the text before the first space, or the whole line
/// where there is none; the target is non-empty and holds no space.
pub open spec fn parse_request_line(l: Seq<char>) -> Result<(HttpMethod, Seq<char>), ParseError> {
    let sp = find_char(l, ' ', 0);
    let token = if sp == -1 { l } else { l.subrange(0, sp) };
    match method_of(token) {
        None => Err(ParseError::HttpMethod),
        Some(m) => {
            if sp == -1 {
                Err(ParseError::HttpVersion)
            } else {
                let sp2 = find_char(l, ' ', sp + 1);
                if sp2 == -1 || sp2 == sp + 1 {
                    Err(ParseError::HttpVersion)
                } else {
                    match version_of(l.subrange(sp2 + 1, l.len() as int)) {
                        Some(v) => Ok((m, v)),
                        None => Err(ParseError::HttpVersion),
                    }
                }
            }
        },
    }
}

/// What parsing a header block gives: the method, the version and the
/// header map, or the first error met, the request line's before the headers'.
pub open spec fn parse_block(s: Seq<char>) -> Result<(HttpMethod, Seq<char>, Map<Seq<char>, Seq<char>>), ParseError> {
    let lines = split_lines(s);
    match parse_request_line(lines[0]) {
        Err(e) => Err(e),
        Ok((m, v)) => {
            if header_lines_valid(lines.drop_first()) {
                Ok((m, v, header_map(lines.drop_first())))
            } else {
                Err(ParseError::Headers)
            }
        },
    }
}

proof fn lemma_lines_nonempty(s: Seq<char>, start: int)
    requires
        0 <= start <= s.len(),
    ensures
        lines_from(s, start).len() >= 1,
{
    lemma_find_crlf(s, start);
}

fn version_token(v: &Vec<char>, lo: usize, hi: usize) -> (r: Option<String>)
    requires
        lo <= hi <= v@.len(),
    ensures
        match version_of(v@.subrange(lo as int, hi as int)) {
            Some(t) => r matches Some(s) && s@ == t,
            None => r is None,
        },
{
    let ghost t = v@.subrange(lo as int, hi as int);
    let prefix: Vec<char> = vec!['H', 'T', 'T', 'P', '/'];
    assert(prefix@ =~= seq!['H', 'T', 'T', 'P', '/']);
    if hi - lo <= 5 || !same_chars(v, lo, lo + 5, &prefix) {
        proof {
            if t.len() > 5 {
                assert(t.subrange(0, 5) =~= v@.subrange(lo as int, lo + 5));
            }
        }
        return None;
    }
    assert(t.subrange(0, 5) =~= v@.subrange(lo as int, lo + 5));
    let sp = find(v, ' ', lo);
    proof {
        lemma_find_char(v@, ' ', lo as int);
        lemma_find_char(t, ' ', 0);
    }
    match sp {
        Some(j) => {
            if j < hi {
                assert(t[j - lo] == ' ');
                return None;
            }
        },
        None => {},
    }
    proof {
        if find_char(t, ' ', 0) != -1 {
            assert(v@[lo + find_char(t, ' ', 0)] == ' ');
        }
        assert(t.subrange(5, t.len() as int) =~= v@.subrange(lo + 5, hi as int));
    }
    Some(string_of(v, lo + 5, hi))
}

/// Parses the request line `v[lo..hi]` into its method and version.
pub fn request_line(v: &Vec<char>, lo: usize, hi: usize) -> (r: Result<(HttpMethod, String), ParseError>)
    requires
        lo <= hi <= v@.len(),
    ensures
        match parse_request_line(v@.subrange(lo as int, hi as int)) {
            Ok((m, t)) => r matches Ok((m2, s)) && m2 == m && s@ == t,
            Err(e) => r == Err::<(HttpMethod, String), ParseError>(e),
        },
{
    let ghost l = v@.subrange(lo as int, hi as int);
    let found = find(v, ' ', lo);
    proof {
        lemma_find_char(v@, ' ', lo as int);
        lemma_find_char(l, ' ', 0);
        if find_char(l, ' ', 0) != -1 {
            assert(v@[lo + find_char(l, ' ', 0)] == ' ');
        }
    }
    let sp: usize = match found {
        Some(j) => if j < hi { j } else { hi },
        None => hi,
    };
    proof {
        if sp < hi {
            assert(l[sp - lo] == ' ');
            assert(find_char(l, ' ', 0) == sp - lo);
            assert(l.subrange(0, sp - lo) =~= v@.subrange(lo as int, sp as int));
        } else {
            assert(find_char(l, ' ', 0) == -1);
            assert(l =~= v@.subrange(lo as int, sp as int));
        }
    }
    let method = match HttpMethod::from_chars(v, lo, sp) {
        Some(m) => m,
        None => return Err(ParseError::HttpMethod),
    };
    if sp == hi {
        return Err(ParseError::HttpVersion);
    }
    let found2 = find(v, ' ', sp + 1);
    proof {
        lemma_find_char(v@, ' ', sp + 1);
        lemma_find_char(l, ' ', sp - lo + 1);
        if find_char(l, ' ', sp - lo + 1) != -1 {
            assert(v@[lo + find_char(l, ' ', sp - lo + 1)] == ' ');
        }
    }
    let sp2: usize = match found2 {
        Some(j) => if j < hi { j } else { hi },
        None => hi,
    };
    proof {
        if sp2 < hi {
            assert(l[sp2 - lo] == ' ');
            assert(find_char(l, ' ', sp - lo + 1) == sp2 - lo);
        } else {
            assert(find_char(l, ' ', sp - lo + 1) == -1);
        }
    }
    if sp2 == hi || sp2 == sp + 1 {
        return Err(ParseError::HttpVersion);
    }
    assert(l.subrange(sp2 - lo + 1, l.len() as int) =~= v@.subrange(sp2 + 1, hi as int));
    match version_token(v, sp2 + 1, hi) {
        Some(t) => Ok((method, t)),
        None => Err(ParseError::HttpVersion),
    }
}

/// A parsed request: its method, protocol version, headers and body. The body
/// is not read by this parser and stays empty.
#[derive(Debug)]
pub struct ClientRequest {
    pub method: HttpMethod,
    pub http_version: String,
    pub headers: Headers,
    pub message_body: Vec<u8>,
}

impl ClientRequest {
    /// Parses a header block: the request line, then one header per line;
    /// empty lines are skipped. Fails with the request line's error where it
    /// is malformed, else with `ParseError::Headers` where a header line has
    /// no colon.
    pub fn parse_request(raw_request: &str) -> (r: Result<ClientRequest, ParseError>)
        ensures
            match parse_block(raw_request@) {
                Ok((m, v, h)) => r matches Ok(req) && req.method == m && req.http_version@ == v
                    && req.headers.wf() && req.headers@ == h && req.message_body@.len() == 0,
                Err(e) => r == Err::<ClientRequest, ParseError>(e),
            },
    {
        let v = chars_of(raw_request);
        let ranges = line_ranges(&v);
        let ghost lines = split_lines(v@);
        proof {
            lemma_lines_nonempty(v@, 0);
        }
        assert(ranges_text(v@, ranges@)[0] == lines[0]);
        let (method, http_version) = match request_line(&v, ranges[0].0, ranges[0].1) {
            Ok(p) => p,
            Err(e) => return Err(e),
        };
        let ghost rest = lines.drop_first();
        let mut headers = Headers::new();
        let mut i: usize = 1;
        while i < ranges.len()
            invariant
                1 <= i <= ranges@.len(),
                ranges_within(ranges@, v@.len()),
                ranges_text(v@, ranges@) == lines,
                lines == split_lines(raw_request@),
                parse_request_line(lines[0]) == Ok::<(HttpMethod, Seq<char>), ParseError>((method, http_version@)),
                rest == lines.drop_first(),
                headers.wf(),
                header_lines_valid(rest.subrange(0, i - 1)),
                headers@ == header_map(rest.subrange(0, i - 1)),
            decreases ranges@.len() - i,
        {
            assert(ranges_text(v@, ranges@)[i as int] == rest[i - 1]);
            assert(ranges@[i as int].0 <= ranges@[i as int].1 <= v@.len());
            if !headers.add_line(&v, ranges[i].0, ranges[i].1) {
                assert(rest[i - 1].len() != 0 && split_header(rest[i - 1]) is None);
                assert(!header_lines_valid(rest));
                return Err(ParseError::Headers);
            }
            proof {
                lemma_lines_valid_push(rest.subrange(0, i - 1), rest[i - 1]);
                assert(rest.subrange(0, i - 1).push(rest[i - 1]) =~= rest.subrange(0, i as int));
                assert(rest.subrange(0, i as int).drop_last() =~= rest.subrange(0, i - 1));
            }
            i = i + 1;
        }
        assert(rest.subrange(0, i - 1) =~= rest);
        Ok(ClientRequest { method, http_version, headers, message_body: Vec::new() })
    }
}

/// `s` holds no space, CR or LF.
pub open spec fn no_space_or_break(s: Seq<char>) -> bool {
    forall|i: int| 0 <= i < s.len() ==> s[i] != ' ' && s[i] != '\r' && s[i] != '\n'
}

/// A header that writes out as a line and reads back as itself: the name
/// holds no colon, neither holds CR or LF, and neither starts or ends with
/// whitespace.
pub open spec fn well_formed_entry(e: Entry) -> bool {
    &&& forall|i: int| 0 <= i < e.0.len() ==> e.0[i] != ':' && e.0[i] != '\r' && e.0[i] != '\n'
    &&& forall|i: int| 0 <= i < e.1.len() ==> e.1[i] != '\r' && e.1[i] != '\n'
    &&& trim(e.0) == e.0
    &&& trim(e.1) == e.1
}

/// The block `METHOD /path HTTP/version` CRLF, then `name: value` CRLF for
/// each header, then CRLF.
pub open spec fn request_block(m: HttpMethod, path: Seq<char>, version: Seq<char>, h: Seq<Entry>) -> Seq<char> {
    request_line_text(m, path, version) + seq!['\r', '\n'] + render_entries(h) + seq!['\r', '\n']
}

/// The request line `METHOD /path HTTP/version`.
pub open spec fn request_line_text(m: HttpMethod, path: Seq<char>, version: Seq<char>) -> Seq<char> {
    method_token(m) + seq![' ', '/'] + path + seq![' ', 'H', 'T', 'T', 'P', '/'] + version
}

/// Lines, each followed by CRLF.
pub open spec fn join_lines(ls: Seq<Seq<char>>) -> Seq<char>
    decreases ls.len(),
{
    if ls.len() == 0 {
        Seq::empty()
    } else {
        join_lines(ls.drop_last()) + ls.last() + seq!['\r', '\n']
    }
}

/// The line `name: value` of a header.
pub open spec fn entry_line(e: Entry) -> Seq<char> {
    e.0 + seq![':', ' '] + e.1
}

/// The lines of a list of headers.
pub open spec fn entry_lines(h: Seq<Entry>) -> Seq<Seq<char>> {
    h.map_values(|e: Entry| entry_line(e))
}

proof fn lemma_join_front(ls: Seq<Seq<char>>)
    requires
        ls.len() > 0,
    ensures
        join_lines(ls) == ls[0] + seq!['\r', '\n'] + join_lines(ls.drop_first()),
    decreases ls.len(),
{
    if ls.len() > 1 {
        lemma_join_front(ls.drop_last());
        assert(ls.drop_last().drop_first() =~= ls.drop_first().drop_last());
    } else {
        assert(ls.drop_first() =~= Seq::<Seq<char>>::empty());
        assert(ls.drop_last() =~= Seq::<Seq<char>>::empty());
    }
}

proof fn lemma_join_append(a: Seq<Seq<char>>, b: Seq<Seq<char>>)
    ensures
        join_lines(a + b) == join_lines(a) + join_lines(b),
    decreases b.len(),
{
    if b.len() == 0 {
        assert(a + b =~= a);
    } else {
        lemma_join_append(a, b.drop_last());
        assert((a + b).drop_last() =~= a + b.drop_last());
    }
}

proof fn lemma_join_one(l: Seq<char>)
    ensures
        join_lines(seq![l]) == l + seq!['\r', '\n'],
{
    let one = seq![l];
    assert(one.drop_last() =~= Seq::<Seq<char>>::empty());
    assert(join_lines(one) == join_lines(one.drop_last()) + one.last() + seq!['\r', '\n']);
    assert(join_lines(one) =~= l + seq!['\r', '\n']);
}

proof fn lemma_render_is_join(h: Seq<Entry>)
    ensures
        render_entries(h) == join_lines(entry_lines(h)),
    decreases h.len(),
{
    if h.len() > 0 {
        lemma_render_is_join(h.drop_last());
        assert(entry_lines(h).drop_last() =~= entry_lines(h.drop_last()));
    }
}

proof fn lemma_find_crlf_at(s: Seq<char>, from: int, k: int)
    requires
        0 <= from <= k,
        crlf_at(s, k),
        forall|j: int| from <= j < k ==> s[j] != '\r',
    ensures
        find_crlf(s, from) == k,
    decreases k - from,
{
    if from < k {
        lemma_find_crlf_at(s, from + 1, k);
    }
}

proof fn lemma_lines_of_join(s: Seq<char>, start: int, ls: Seq<Seq<char>>)
    requires
        0 <= start <= s.len(),
        s.subrange(start, s.len() as int) == join_lines(ls),
        forall|i: int, j: int| 0 <= i < ls.len() && 0 <= j < ls[i].len() ==> ls[i][j] != '\r',
    ensures
        lines_from(s, start) == ls.push(Seq::<char>::empty()),
    decreases ls.len(),
{
    if ls.len() == 0 {
        assert(s.subrange(start, s.len() as int).len() == 0);
        assert(lines_from(s, start) =~= ls.push(Seq::<char>::empty()));
    } else {
        lemma_join_front(ls);
        let l = ls[0];
        let k = start + l.len();
        let t = s.subrange(start, s.len() as int);
        let rest = join_lines(ls.drop_first());
        assert(t == l + seq!['\r', '\n'] + rest);
        assert(t.subrange(0, l.len() as int) =~= l);
        assert(s[k] == t[l.len() as int]);
        assert(s[k + 1] == t[l.len() as int + 1]);
        assert forall|j: int| start <= j < k implies s[j] != '\r' by {
            assert(s[j] == t[j - start]);
            assert(t[j - start] == l[j - start]);
        }
        lemma_find_crlf_at(s, start, k);
        assert(s.subrange(start, k) =~= l);
        assert(s.subrange(k + 2, s.len() as int) =~= t.subrange(l.len() as int + 2, t.len() as int));
        assert(t.subrange(l.len() as int + 2, t.len() as int) =~= rest);
        lemma_lines_of_join(s, k + 2, ls.drop_first());
        assert(lines_from(s, start) =~= ls.push(Seq::<char>::empty()));
    }
}

proof fn lemma_find_char_at(s: Seq<char>, c: char, from: int, k: int)
    requires
        0 <= from <= k <= s.len(),
        k == s.len() || s[k] == c,
        forall|j: int| from <= j < k ==> s[j] != c,
    ensures
        find_char(s, c, from) == if k == s.len() { -1 } else { k },
    decreases k - from,
{
    if from < k {
        lemma_find_char_at(s, c, from + 1, k);
    }
}

proof fn lemma_method_of_token(m: HttpMethod)
    ensures
        method_of(method_token(m)) == Some(m),
        forall|i: int| 0 <= i < method_token(m).len() ==> method_token(m)[i] != ' ' && method_token(m)[i] != '\r',
{
    let g = method_token(HttpMethod::Get);
    let hd = method_token(HttpMethod::Head);
    let po = method_token(HttpMethod::Post);
    let pu = method_token(HttpMethod::Put);
    let de = method_token(HttpMethod::Delete);
    let co = method_token(HttpMethod::Connect);
    let op = method_token(HttpMethod::Options);
    let tr = method_token(HttpMethod::Trace);
    let pa = method_token(HttpMethod::Patch);
    assert(g.len() == 3 && pu.len() == 3 && g[0] != pu[0]);
    assert(hd.len() == 4 && po.len() == 4 && hd[0] != po[0]);
    assert(de.len() == 6);
    assert(co.len() == 7 && op.len() == 7 && co[0] != op[0]);
    assert(tr.len() == 5 && pa.len() == 5 && tr[0] != pa[0]);
}

proof fn lemma_request_line(m: HttpMethod, path: Seq<char>, version: Seq<char>)
    requires
        no_space_or_break(path),
        no_space_or_break(version),
        version.len() > 0,
    ensures
        parse_request_line(request_line_text(m, path, version)) == Ok::<(HttpMethod, Seq<char>), ParseError>((m, version)),
        forall|j: int| 0 <= j < request_line_text(m, path, version).len()
            ==> #[trigger] request_line_text(m, path, version)[j] != '\r',
{
    let l = request_line_text(m, path, version);
    let t = method_token(m);
    lemma_method_of_token(m);
    let sp = t.len() as int;
    let sp2 = sp + 2 + path.len();
    assert forall|j: int| 0 <= j < sp implies l[j] != ' ' by {
        assert(l[j] == t[j]);
    }
    assert(l[sp] == ' ');
    lemma_find_char_at(l, ' ', 0, sp);
    assert(l.subrange(0, sp) =~= t);
    assert forall|j: int| sp + 1 <= j < sp2 implies l[j] != ' ' by {
        if j > sp + 1 {
            assert(l[j] == path[j - sp - 2]);
        }
    }
    assert(l[sp2] == ' ');
    lemma_find_char_at(l, ' ', sp + 1, sp2);
    let vt = l.subrange(sp2 + 1, l.len() as int);
    assert(vt =~= seq!['H', 'T', 'T', 'P', '/'] + version);
    assert(vt.subrange(0, 5) =~= seq!['H', 'T', 'T', 'P', '/']);
    assert(vt.subrange(5, vt.len() as int) =~= version);
    assert forall|j: int| 0 <= j < vt.len() implies vt[j] != ' ' by {
        if j >= 5 {
            assert(vt[j] == version[j - 5]);
        }
    }
    lemma_find_char_at(vt, ' ', 0, vt.len() as int);
    assert forall|j: int| 0 <= j < l.len() implies #[trigger] l[j] != '\r' by {
        if j < sp {
            assert(l[j] == t[j]);
        } else if sp + 2 <= j < sp2 {
            assert(l[j] == path[j - sp - 2]);
        } else if j > sp2 + 5 {
            assert(l[j] == version[j - sp2 - 6]);
        }
    }
}

proof fn lemma_split_entry_line(e: Entry)
    requires
        well_formed_entry(e),
    ensures
        split_header(entry_line(e)) == Some(e),
        forall|j: int| 0 <= j < entry_line(e).len() ==> #[trigger] entry_line(e)[j] != '\r',
{
    let l = entry_line(e);
    let k = e.0.len() as int;
    assert forall|j: int| 0 <= j < k implies l[j] != ':' by {
        assert(l[j] == e.0[j]);
    }
    lemma_find_char_at(l, ':', 0, k);
    assert(l.subrange(0, k) =~= e.0);
    let v = l.subrange(k + 1, l.len() as int);
    assert(v.drop_first() =~= e.1);
    assert(is_space(v[0]));
    assert(trim_start(v) == trim_start(e.1));
    assert forall|j: int| 0 <= j < l.len() implies #[trigger] l[j] != '\r' by {
        if j < k {
            assert(l[j] == e.0[j]);
        } else if j >= k + 2 {
            assert(l[j] == e.1[j - k - 2]);
        }
    }
}

proof fn lemma_entry_lines_map(h: Seq<Entry>)
    requires
        forall|i: int| 0 <= i < h.len() ==> well_formed_entry(#[trigger] h[i]),
    ensures
        header_lines_valid(entry_lines(h)),
        header_map(entry_lines(h)) == map_of(h),
    decreases h.len(),
{
    if h.len() > 0 {
        let d = h.drop_last();
        assert forall|i: int| 0 <= i < d.len() implies well_formed_entry(#[trigger] d[i]) by {
            assert(d[i] == h[i]);
        }
        lemma_entry_lines_map(d);
        assert(entry_lines(h).drop_last() =~= entry_lines(d));
        assert(well_formed_entry(h[h.len() - 1]));
        lemma_split_entry_line(h.last());
        lemma_lines_valid_push(entry_lines(d), entry_line(h.last()));
        assert(entry_lines(d).push(entry_line(h.last())) =~= entry_lines(h));
    }
}

/// For every method, path and version without spaces or line breaks (the
/// version not empty) and every list of well-formed headers, the block
/// `METHOD /path HTTP/version` CRLF, the header lines, CRLF parses to that
/// method and version, with the headers that the list gives where a later
/// header replaces an earlier one of the same name.
pub proof fn lemma_well_formed_block_parses(m: HttpMethod, path: Seq<char>, version: Seq<char>, h: Seq<Entry>)
    requires
        no_space_or_break(path),
        no_space_or_break(version),
        version.len() > 0,
        forall|i: int| 0 <= i < h.len() ==> well_formed_entry(#[trigger] h[i]),
    ensures
        parse_block(request_block(m, path, version, h)) == Ok::<(HttpMethod, Seq<char>, Map<Seq<char>, Seq<char>>), ParseError>((m, version, map_of(h))),
{
    let l0 = request_line_text(m, path, version);
    let s = request_block(m, path, version, h);
    let es = entry_lines(h);
    let ls = seq![l0] + es + seq![Seq::<char>::empty()];
    lemma_request_line(m, path, version);
    lemma_render_is_join(h);
    lemma_join_append(seq![l0] + es, seq![Seq::<char>::empty()]);
    lemma_join_append(seq![l0], es);
    lemma_join_one(l0);
    lemma_join_one(Seq::<char>::empty());
    assert(s =~= join_lines(ls));
    assert(s.subrange(0, s.len() as int) =~= s);
    assert forall|i: int, j: int| 0 <= i < ls.len() && 0 <= j < ls[i].len() implies ls[i][j] != '\r' by {
        if i == 0 {
            assert(ls[i] == l0);
            assert(l0[j] != '\r');
        } else if i <= es.len() {
            assert(ls[i] == es[i - 1]);
            assert(well_formed_entry(h[i - 1]));
            lemma_split_entry_line(h[i - 1]);
            assert(es[i - 1] == entry_line(h[i - 1]));
            assert(entry_line(h[i - 1])[j] != '\r');
        }
    }
    lemma_lines_of_join(s, 0, ls);
    let lines = split_lines(s);
    assert(lines[0] == l0);
    let rest = lines.drop_first();
    assert(rest =~= es.push(Seq::<char>::empty()).push(Seq::<char>::empty()));
    lemma_entry_lines_map(h);
    assert(split_header(Seq::<char>::empty()) is None);
    lemma_lines_valid_push(es, Seq::<char>::empty());
    lemma_lines_valid_push(es.push(Seq::<char>::empty()), Seq::<char>::empty());
    assert(rest.drop_last() =~= es.push(Seq::<char>::empty()));
    assert(rest.drop_last().drop_last() =~= es);
    assert(header_lines_valid(rest));
    assert(header_map(rest.drop_last()) == header_map(es));
    assert(header_map(rest) == map_of(h));
    assert(parse_request_line(lines[0]) == Ok::<(HttpMethod, Seq<char>), ParseError>((m, version)));
}

} // verus!
