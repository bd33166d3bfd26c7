//! Incremental HTTP/1.1 response parser.
//!
//! The parser consumes a byte stream in arbitrary slices and recognises where
//! each response ends from its `Content-Length`, without keeping the response.
//! Its behaviour is stated as a byte-by-byte transition function `step` on a
//! mathematical model; `parse` is `feed`, the fold of `step` over the slice.
use vstd::prelude::*;
use crate::text::{
    decimal_value, is_numeral, lemma_decimal_nonneg, lower_of, lowercase, parse_decimal, push_char,
};

verus! {

pub const SLASH: u8 = 47;
pub const SPACE: u8 = 32;
pub const LF: u8 = 10;
pub const CR: u8 = 13;
pub const COLON: u8 = 58;

#[derive(PartialEq, Eq, Debug, Clone, Copy, Structural)]
pub enum ParserState {
    Started,
    Version,
    StatusFirstChar,
    Status,
    HeaderStart,
    HeaderValue,
    HeaderEnd,
    Body,
    End,
}

/// What the parser knows at a point of the byte stream.
pub ghost struct ParserModel {
    pub state: ParserState,
    pub version: Seq<u8>,
    pub status: char,
    pub responses: nat,
    pub headers: Map<Seq<char>, Seq<char>>,
    pub name: Seq<char>,
    pub value: Seq<char>,
    pub remaining: int,
}

pub open spec fn content_length_key() -> Seq<char> {
    seq!['c', 'o', 'n', 't', 'e', 'n', 't', '-', 'l', 'e', 'n', 'g', 't', 'h']
}

/// The `Content-Length` assumed when a response carries none.
pub open spec fn default_content_length() -> Seq<char> {
    seq!['1']
}

/// The blank line that closes the header block: the body length is read from
/// the headers and one is taken off it; a length that is no numeral stops the
/// parser in `End`.
pub open spec fn end_of_headers(m: ParserModel) -> ParserModel {
    let cl = if m.headers.contains_key(content_length_key()) {
        m.headers[content_length_key()]
    } else {
        default_content_length()
    };
    if is_numeral(cl) && decimal_value(cl) <= i64::MAX {
        let r = decimal_value(cl) - 1;
        ParserModel {
            state: if r == 0 { ParserState::Started } else { ParserState::Body },
            remaining: r,
            name: Seq::empty(),
            value: Seq::empty(),
            ..m
        }
    } else {
        ParserModel { state: ParserState::End, name: Seq::empty(), value: Seq::empty(), ..m }
    }
}

/// One byte of input.
pub open spec fn step(m: ParserModel, b: u8) -> ParserModel {
    match m.state {
        ParserState::Started => {
            if b == SLASH {
                ParserModel { state: ParserState::Version, version: Seq::empty(), ..m }
            } else {
                m
            }
        },
        ParserState::Version => {
            if b == SPACE {
                ParserModel { state: ParserState::StatusFirstChar, ..m }
            } else {
                ParserModel { version: m.version.push(b), ..m }
            }
        },
        ParserState::StatusFirstChar => {
            ParserModel { state: ParserState::Status, status: b as char, ..m }
        },
        ParserState::Status => {
            if b == LF {
                ParserModel { state: ParserState::HeaderStart, ..m }
            } else {
                m
            }
        },
        ParserState::HeaderStart => {
            if b == SPACE || b == CR {
                m
            } else if b == LF {
                end_of_headers(m)
            } else if b == COLON {
                ParserModel { state: ParserState::HeaderValue, ..m }
            } else {
                ParserModel { name: m.name.push(b as char), ..m }
            }
        },
        ParserState::HeaderValue => {
            if b == SPACE || b == CR {
                m
            } else if b == LF {
                ParserModel {
                    state: ParserState::HeaderStart,
                    headers: m.headers.insert(lower_of(m.name), m.value),
                    name: Seq::empty(),
                    value: Seq::empty(),
                    ..m
                }
            } else {
                ParserModel { value: m.value.push(b as char), ..m }
            }
        },
        ParserState::Body => {
            if m.remaining == 0 {
                ParserModel { state: ParserState::Started, responses: m.responses + 1, ..m }
            } else if m.remaining > 0 {
                ParserModel { remaining: m.remaining - 1, ..m }
            } else {
                m
            }
        },
        ParserState::HeaderEnd | ParserState::End => m,
    }
}

/// A run of bytes, one after another.
pub open spec fn feed(m: ParserModel, data: Seq<u8>) -> ParserModel
    decreases data.len(),
{
    if data.len() == 0 {
        m
    } else {
        step(feed(m, data.drop_last()), data.last())
    }
}

/// A parser that has seen nothing yet.
pub open spec fn initial_model() -> ParserModel {
    ParserModel {
        state: ParserState::Started,
        version: Seq::empty(),
        status: '0',
        responses: 0,
        headers: Map::empty(),
        name: Seq::empty(),
        value: Seq::empty(),
        remaining: 0,
    }
}

/// The header map that a list of (name, value) pairs stands for; a later pair
/// overrides an earlier one with the same name.
pub open spec fn pairs_map(s: Seq<(String, String)>) -> Map<Seq<char>, Seq<char>>
    decreases s.len(),
{
    if s.len() == 0 {
        Map::empty()
    } else {
        pairs_map(s.drop_last()).insert(s.last().0@, s.last().1@)
    }
}

pub open spec fn unique_names(s: Seq<(String, String)>) -> bool {
    forall|i: int, j: int| 0 <= i < j < s.len() ==> #[trigger] s[i].0@ != #[trigger] s[j].0@
}

/// The bytes of a header name or value as the parser keeps them: each byte as
/// the character of the same code, with spaces and carriage returns left out.
pub open spec fn kept_text(b: Seq<u8>) -> Seq<char>
    decreases b.len(),
{
    if b.len() == 0 {
        Seq::empty()
    } else if b.last() == SPACE || b.last() == CR {
        kept_text(b.drop_last())
    } else {
        kept_text(b.drop_last()).push(b.last() as char)
    }
}

/// The header map after a list of header lines, each as (name, value) bytes.
pub open spec fn with_headers(h: Map<Seq<char>, Seq<char>>, hs: Seq<(Seq<u8>, Seq<u8>)>) -> Map<
    Seq<char>,
    Seq<char>,
>
    decreases hs.len(),
{
    if hs.len() == 0 {
        h
    } else {
        with_headers(h, hs.drop_last()).insert(
            lower_of(kept_text(hs.last().0)),
            kept_text(hs.last().1),
        )
    }
}

pub open spec fn no_byte(s: Seq<u8>, b: u8) -> bool {
    forall|i: int| 0 <= i < s.len() ==> #[trigger] s[i] != b
}

/// One response on the wire, in parts: `<scheme>/<version> <digit><reason>\n`,
/// then the header lines `<name>:<value>\r\n`, a blank line `\r\n`, the body.
pub ghost struct Response {
    pub scheme: Seq<u8>,
    pub version: Seq<u8>,
    pub digit: u8,
    pub reason: Seq<u8>,
    pub headers: Seq<(Seq<u8>, Seq<u8>)>,
    pub body: Seq<u8>,
}

pub open spec fn header_block(hs: Seq<(Seq<u8>, Seq<u8>)>) -> Seq<u8>
    decreases hs.len(),
{
    if hs.len() == 0 {
        Seq::empty()
    } else {
        header_block(hs.drop_last()) + (hs.last().0 + seq![COLON] + hs.last().1 + seq![CR, LF])
    }
}

impl Response {
    pub open spec fn status_line(self) -> Seq<u8> {
        self.scheme + seq![SLASH] + self.version + seq![SPACE, self.digit] + self.reason + seq![LF]
    }

    pub open spec fn bytes(self) -> Seq<u8> {
        self.status_line() + header_block(self.headers) + seq![CR, LF] + self.body
    }

    /// The header map that the response's own header lines make.
    pub open spec fn own_headers(self) -> Map<Seq<char>, Seq<char>> {
        with_headers(Map::empty(), self.headers)
    }

    /// Well framed, with a numeric `Content-Length` header that gives the
    /// length of the body. A length of 0 or 1 is left out: the parser takes
    /// one off the length and then counts a response only after a body byte.
    pub open spec fn well_formed(self) -> bool {
        &&& no_byte(self.scheme, SLASH)
        &&& no_byte(self.version, SPACE)
        &&& no_byte(self.reason, LF)
        &&& forall|i: int|
            0 <= i < self.headers.len() ==> {
                &&& no_byte((#[trigger] self.headers[i]).0, COLON)
                &&& no_byte(self.headers[i].0, LF)
                &&& no_byte(self.headers[i].1, LF)
            }
        &&& self.own_headers().contains_key(content_length_key())
        &&& is_numeral(self.own_headers()[content_length_key()])
        &&& decimal_value(self.own_headers()[content_length_key()]) == self.body.len()
        &&& 2 <= self.body.len() <= i64::MAX
    }
}

pub open spec fn all_bytes(rs: Seq<Response>) -> Seq<u8>
    decreases rs.len(),
{
    if rs.len() == 0 {
        Seq::empty()
    } else {
        all_bytes(rs.drop_last()) + rs.last().bytes()
    }
}

/// A parser between responses: nothing of a header line is pending.
pub open spec fn at_rest(m: ParserModel) -> bool {
    m.state == ParserState::Started && m.name.len() == 0 && m.value.len() == 0
}

/// Where a stream is cut does not matter: feeding `a` and then `b` is feeding
/// `a + b`.
pub proof fn lemma_feed_split(m: ParserModel, a: Seq<u8>, b: Seq<u8>)
    ensures
        feed(feed(m, a), b) == feed(m, a + b),
    decreases b.len(),
{
    if b.len() == 0 {
        assert(a + b =~= a);
    } else {
        lemma_feed_split(m, a, b.drop_last());
        assert((a + b).drop_last() =~= a + b.drop_last());
    }
}

proof fn lemma_feed_one(m: ParserModel, b: u8)
    ensures
        feed(m, seq![b]) == step(m, b),
{
    assert(seq![b].drop_last() =~= Seq::<u8>::empty());
    assert(feed(m, seq![b].drop_last()) == m);
}

proof fn lemma_feed_skip(m: ParserModel, s: Seq<u8>, stop: u8)
    requires
        m.state == ParserState::Started && stop == SLASH || m.state == ParserState::Status && stop
            == LF,
        no_byte(s, stop),
    ensures
        feed(m, s) == m,
    decreases s.len(),
{
    if s.len() > 0 {
        lemma_feed_skip(m, s.drop_last(), stop);
    }
}

proof fn lemma_feed_version(m: ParserModel, s: Seq<u8>)
    requires
        m.state == ParserState::Version,
        no_byte(s, SPACE),
    ensures
        feed(m, s) == (ParserModel { version: m.version + s, ..m }),
    decreases s.len(),
{
    if s.len() == 0 {
        assert(m.version + s =~= m.version);
    } else {
        lemma_feed_version(m, s.drop_last());
        assert((m.version + s.drop_last()).push(s.last()) =~= m.version + s);
    }
}

proof fn lemma_feed_name(m: ParserModel, s: Seq<u8>)
    requires
        m.state == ParserState::HeaderStart,
        no_byte(s, COLON),
        no_byte(s, LF),
    ensures
        feed(m, s) == (ParserModel { name: m.name + kept_text(s), ..m }),
    decreases s.len(),
{
    if s.len() == 0 {
        assert(m.name + kept_text(s) =~= m.name);
    } else {
        lemma_feed_name(m, s.drop_last());
        assert((m.name + kept_text(s.drop_last())).push(s.last() as char) =~= m.name + kept_text(
            s.drop_last(),
        ).push(s.last() as char));
    }
}

proof fn lemma_feed_value(m: ParserModel, s: Seq<u8>)
    requires
        m.state == ParserState::HeaderValue,
        no_byte(s, LF),
    ensures
        feed(m, s) == (ParserModel { value: m.value + kept_text(s), ..m }),
    decreases s.len(),
{
    if s.len() == 0 {
        assert(m.value + kept_text(s) =~= m.value);
    } else {
        lemma_feed_value(m, s.drop_last());
        assert((m.value + kept_text(s.drop_last())).push(s.last() as char) =~= m.value
            + kept_text(s.drop_last()).push(s.last() as char));
    }
}

proof fn lemma_feed_body(m: ParserModel, s: Seq<u8>)
    requires
        m.state == ParserState::Body,
        s.len() <= m.remaining,
    ensures
        feed(m, s) == (ParserModel { remaining: m.remaining - s.len(), ..m }),
    decreases s.len(),
{
    if s.len() > 0 {
        lemma_feed_body(m, s.drop_last());
    }
}

proof fn lemma_feed_header_line(m: ParserModel, name: Seq<u8>, value: Seq<u8>)
    requires
        m.state == ParserState::HeaderStart,
        m.name.len() == 0,
        m.value.len() == 0,
        no_byte(name, COLON),
        no_byte(name, LF),
        no_byte(value, LF),
    ensures
        feed(m, name + seq![COLON] + value + seq![CR, LF]) == (ParserModel {
            headers: m.headers.insert(lower_of(kept_text(name)), kept_text(value)),
            ..m
        }),
{
    let m1 = feed(m, name);
    lemma_feed_name(m, name);
    assert(m.name + kept_text(name) =~= kept_text(name));
    let m2 = step(m1, COLON);
    lemma_feed_one(m1, COLON);
    lemma_feed_split(m, name, seq![COLON]);
    let m3 = feed(m2, value);
    lemma_feed_value(m2, value);
    assert(m2.value + kept_text(value) =~= kept_text(value));
    lemma_feed_split(m, name + seq![COLON], value);
    let m4 = step(step(m3, CR), LF);
    assert(seq![CR, LF].drop_last() =~= seq![CR]);
    lemma_feed_one(m3, CR);
    lemma_feed_split(m, name + seq![COLON] + value, seq![CR, LF]);
    assert(m4.name =~= m.name);
    assert(m4.value =~= m.value);
}

proof fn lemma_feed_header_block(m: ParserModel, hs: Seq<(Seq<u8>, Seq<u8>)>)
    requires
        m.state == ParserState::HeaderStart,
        m.name.len() == 0,
        m.value.len() == 0,
        forall|i: int|
            0 <= i < hs.len() ==> {
                &&& no_byte((#[trigger] hs[i]).0, COLON)
                &&& no_byte(hs[i].0, LF)
                &&& no_byte(hs[i].1, LF)
            },
    ensures
        feed(m, header_block(hs)) == (ParserModel { headers: with_headers(m.headers, hs), ..m }),
    decreases hs.len(),
{
    if hs.len() == 0 {
        assert(m.headers == with_headers(m.headers, hs));
    } else {
        let t = hs.drop_last();
        assert forall|i: int| 0 <= i < t.len() implies {
            &&& no_byte((#[trigger] t[i]).0, COLON)
            &&& no_byte(t[i].0, LF)
            &&& no_byte(t[i].1, LF)
        } by {
            assert(t[i] == hs[i]);
        }
        lemma_feed_header_block(m, t);
        let m1 = feed(m, header_block(t));
        let (n, v) = hs.last();
        lemma_feed_header_line(m1, n, v);
        lemma_feed_split(m, header_block(t), n + seq![COLON] + v + seq![CR, LF]);
    }
}

/// What a response's own header lines say of a name holds whatever the
/// header map held before.
proof fn lemma_own_header(h: Map<Seq<char>, Seq<char>>, hs: Seq<(Seq<u8>, Seq<u8>)>, k: Seq<char>)
    requires
        with_headers(Map::empty(), hs).contains_key(k),
    ensures
        with_headers(h, hs).contains_key(k),
        with_headers(h, hs)[k] == with_headers(Map::empty(), hs)[k],
    decreases hs.len(),
{
    if hs.len() > 0 {
        let key = lower_of(kept_text(hs.last().0));
        if key != k {
            lemma_own_header(h, hs.drop_last(), k);
        }
    }
}

/// One whole response, fed to a parser at rest, is counted once and leaves
/// the parser at rest; its status digit is recorded, and its header lines are
/// stored under their lower-cased names with spaces and carriage returns taken
/// out of names and values, a later line overriding an earlier one.
pub proof fn lemma_response(m: ParserModel, r: Response)
    requires
        at_rest(m),
        r.well_formed(),
    ensures
        ({
            let f = feed(m, r.bytes());
            &&& at_rest(f)
            &&& f.responses == m.responses + 1
            &&& f.status == r.digit as char
            &&& f.version == r.version
            &&& f.headers == with_headers(m.headers, r.headers)
        }),
{
    let sl = r.status_line();
    // status line
    lemma_feed_skip(m, r.scheme, SLASH);
    let a0 = r.scheme + seq![SLASH];
    lemma_feed_one(m, SLASH);
    lemma_feed_split(m, r.scheme, seq![SLASH]);
    let m1 = step(m, SLASH);
    lemma_feed_version(m1, r.version);
    lemma_feed_split(m, a0, r.version);
    let a1 = a0 + r.version;
    let m2 = feed(m1, r.version);
    assert(m2.version =~= r.version);
    let m3 = step(step(m2, SPACE), r.digit);
    assert(seq![SPACE, r.digit].drop_last() =~= seq![SPACE]);
    lemma_feed_one(m2, SPACE);
    lemma_feed_split(m, a1, seq![SPACE, r.digit]);
    let a2 = a1 + seq![SPACE, r.digit];
    lemma_feed_skip(m3, r.reason, LF);
    lemma_feed_split(m, a2, r.reason);
    lemma_feed_one(m3, LF);
    lemma_feed_split(m, a2 + r.reason, seq![LF]);
    let m4 = step(m3, LF);
    assert(feed(m, sl) == m4);
    // header lines
    lemma_feed_header_block(m4, r.headers);
    lemma_feed_split(m, sl, header_block(r.headers));
    let m5 = feed(m4, header_block(r.headers));
    // blank line
    lemma_own_header(m.headers, r.headers, content_length_key());
    assert(seq![CR, LF].drop_last() =~= seq![CR]);
    lemma_feed_one(m5, CR);
    lemma_feed_split(m, sl + header_block(r.headers), seq![CR, LF]);
    let m6 = step(m5, LF);
    assert(m6 == end_of_headers(m5));
    // body
    let b = r.body;
    lemma_feed_body(m6, b.drop_last());
    let m7 = feed(m6, b.drop_last());
    assert(m7.remaining == 0);
    assert(feed(m6, b) == step(m7, b.last()));
    lemma_feed_split(m, sl + header_block(r.headers) + seq![CR, LF], b);
}

/// Responses sent back to back are each counted once: `k` of them, fed to a
/// parser at rest, add `k` to the count and leave it at rest.
pub proof fn lemma_responses(m: ParserModel, rs: Seq<Response>)
    requires
        at_rest(m),
        forall|i: int| 0 <= i < rs.len() ==> (#[trigger] rs[i]).well_formed(),
    ensures
        at_rest(feed(m, all_bytes(rs))),
        feed(m, all_bytes(rs)).responses == m.responses + rs.len(),
    decreases rs.len(),
{
    if rs.len() > 0 {
        let t = rs.drop_last();
        assert forall|i: int| 0 <= i < t.len() implies (#[trigger] t[i]).well_formed() by {
            assert(t[i] == rs[i]);
        }
        lemma_responses(m, t);
        lemma_response(feed(m, all_bytes(t)), rs.last());
        lemma_feed_split(m, all_bytes(t), rs.last().bytes());
    }
}

pub struct HTTParser {
    pub state: ParserState,
    pub version: Vec<u8>,
    pub status_code_first_char: char,
    pub responses_parsed: usize,
    /// Lower-cased header names with their values, each name once.
    pub headers: Vec<(String, String)>,
    pub header_name: String,
    pub header_value: String,
    pub body_remaining: i64,
}

impl View for HTTParser {
    type V = ParserModel;

    open spec fn view(&self) -> ParserModel {
        ParserModel {
            state: self.state,
            version: self.version@,
            status: self.status_code_first_char,
            responses: self.responses_parsed as nat,
            headers: pairs_map(self.headers@),
            name: self.header_name@,
            value: self.header_value@,
            remaining: self.body_remaining as int,
        }
    }
}

proof fn lemma_pairs_lookup(s: Seq<(String, String)>, i: int)
    requires
        unique_names(s),
        0 <= i < s.len(),
    ensures
        pairs_map(s).contains_key(s[i].0@),
        pairs_map(s)[s[i].0@] == s[i].1@,
    decreases s.len(),
{
    if i < s.len() - 1 {
        let t = s.drop_last();
        assert(t[i] == s[i]);
        lemma_pairs_lookup(t, i);
        assert(s.last().0@ != s[i].0@);
    }
}

proof fn lemma_pairs_absent(s: Seq<(String, String)>, k: Seq<char>)
    requires
        forall|i: int| 0 <= i < s.len() ==> (#[trigger] s[i]).0@ != k,
    ensures
        !pairs_map(s).contains_key(k),
    decreases s.len(),
{
    if s.len() > 0 {
        let t = s.drop_last();
        assert forall|i: int| 0 <= i < t.len() implies (#[trigger] t[i]).0@ != k by {
            assert(t[i] == s[i]);
        }
        lemma_pairs_absent(t, k);
    }
}

proof fn lemma_pairs_update(s: Seq<(String, String)>, i: int, p: (String, String))
    requires
        unique_names(s),
        0 <= i < s.len(),
        s[i].0@ == p.0@,
    ensures
        pairs_map(s.update(i, p)) =~= pairs_map(s).insert(p.0@, p.1@),
        unique_names(s.update(i, p)),
    decreases s.len(),
{
    let u = s.update(i, p);
    if i == s.len() - 1 {
        assert(u.drop_last() =~= s.drop_last());
        let t = s.drop_last();
        assert forall|j: int| 0 <= j < t.len() implies (#[trigger] t[j]).0@ != p.0@ by {
            assert(t[j] == s[j]);
        }
        lemma_pairs_absent(t, p.0@);
    } else {
        let t = s.drop_last();
        assert(u.drop_last() =~= t.update(i, p));
        assert(t[i] == s[i]);
        lemma_pairs_update(t, i, p);
        assert(s.last().0@ != p.0@);
    }
}

proof fn lemma_pairs_push(s: Seq<(String, String)>, p: (String, String))
    requires
        unique_names(s),
        forall|i: int| 0 <= i < s.len() ==> (#[trigger] s[i]).0@ != p.0@,
    ensures
        pairs_map(s.push(p)) == pairs_map(s).insert(p.0@, p.1@),
        unique_names(s.push(p)),
{
    assert(s.push(p).drop_last() =~= s);
}

/// Sets `name` to `value` in a list of pairs with distinct names.
fn insert_header(headers: &mut Vec<(String, String)>, name: String, value: String)
    requires
        unique_names(old(headers)@),
    ensures
        unique_names(final(headers)@),
        pairs_map(final(headers)@) == pairs_map(old(headers)@).insert(name@, value@),
{
    let n = headers.len();
    let mut i: usize = 0;
    while i < n
        invariant
            n == headers.len(),
            i <= n,
            headers@ == old(headers)@,
            unique_names(headers@),
            forall|j: int| 0 <= j < i ==> (#[trigger] headers@[j]).0@ != name@,
        decreases n - i,
    {
        if headers[i].0 == name {
            let ghost before = headers@;
            let ghost p = (name, value);
            proof {
                lemma_pairs_update(before, i as int, p);
            }
            headers[i] = (name, value);
            assert(headers@ == before.update(i as int, p));
            return;
        }
        i = i + 1;
    }
    let ghost before = headers@;
    let ghost p = (name, value);
    proof {
        lemma_pairs_push(before, p);
    }
    headers.push((name, value));
}

/// The value stored under `content-length`, if any.
fn find_content_length(headers: &Vec<(String, String)>) -> (r: Option<&String>)
    requires
        unique_names(headers@),
    ensures
        match r {
            Some(v) => pairs_map(headers@).contains_key(content_length_key())
                && pairs_map(headers@)[content_length_key()] == v@,
            None => !pairs_map(headers@).contains_key(content_length_key()),
        },
{
    let key = String::from_str("content-length");
    proof {
        reveal_strlit("content-length");
        assert(key@ =~= content_length_key());
    }
    let n = headers.len();
    let mut i: usize = 0;
    while i < n
        invariant
            n == headers.len(),
            i <= n,
            unique_names(headers@),
            key@ == content_length_key(),
            forall|j: int| 0 <= j < i ==> (#[trigger] headers@[j]).0@ != key@,
        decreases n - i,
    {
        if headers[i].0 == key {
            proof {
                lemma_pairs_lookup(headers@, i as int);
            }
            return Some(&headers[i].1);
        }
        i = i + 1;
    }
    proof {
        lemma_pairs_absent(headers@, key@);
    }
    None
}

impl HTTParser {
    pub open spec fn wf(&self) -> bool {
        unique_names(self.headers@)
    }

    pub fn new() -> (r: HTTParser)
        ensures
            r.wf(),
            r@ == initial_model(),
    {
        let r = HTTParser {
            state: ParserState::Started,
            version: Vec::new(),
            status_code_first_char: '0',
            responses_parsed: 0,
            headers: Vec::new(),
            header_name: String::new(),
            header_value: String::new(),
            body_remaining: 0,
        };
        assert(r@.headers =~= Map::empty());
        r
    }

    fn end_headers(&mut self)
        requires
            old(self).wf(),
        ensures
            final(self).wf(),
            final(self)@ == end_of_headers(old(self)@),
    {
        let ghost m = self@;
        let ghost cl = if m.headers.contains_key(content_length_key()) {
            m.headers[content_length_key()]
        } else {
            default_content_length()
        };
        let len = match find_content_length(&self.headers) {
            Some(v) => {
                assert(v@.subrange(0, v@.len() as int) =~= v@);
                parse_decimal(v.as_str(), 0, i64::MAX as u64)
            },
            None => {
                proof {
                    assert(cl.drop_last() =~= Seq::<char>::empty());
                    assert(decimal_value(cl.drop_last()) == 0);
                    assert(decimal_value(cl) == 1);
                }
                Some(1u64)
            },
        };
        assert(len == if is_numeral(cl) && decimal_value(cl) <= i64::MAX {
            Some(decimal_value(cl) as u64)
        } else {
            None::<u64>
        });
        proof {
            if is_numeral(cl) {
                lemma_decimal_nonneg(cl);
            }
        }
        self.header_name = String::new();
        self.header_value = String::new();
        match len {
            Some(n) => {
                self.body_remaining = n as i64 - 1;
                if self.body_remaining == 0 {
                    self.state = ParserState::Started;
                } else {
                    self.state = ParserState::Body;
                }
            },
            None => {
                self.state = ParserState::End;
            },
        }
    }

    fn step(&mut self, byte: u8)
        requires
            old(self).wf(),
            old(self).responses_parsed < usize::MAX,
        ensures
            final(self).wf(),
            final(self)@ == step(old(self)@, byte),
    {
        match self.state {
            ParserState::Started => {
                if byte == SLASH {
                    self.state = ParserState::Version;
                    self.version = Vec::new();
                }
            },
            ParserState::Version => {
                if byte == SPACE {
                    self.state = ParserState::StatusFirstChar;
                } else {
                    self.version.push(byte);
                }
            },
            ParserState::StatusFirstChar => {
                self.status_code_first_char = byte as char;
                self.state = ParserState::Status;
            },
            ParserState::Status => {
                if byte == LF {
                    self.state = ParserState::HeaderStart;
                }
            },
            ParserState::HeaderStart => {
                if byte == SPACE || byte == CR {
                } else if byte == LF {
                    self.end_headers();
                } else if byte == COLON {
                    self.state = ParserState::HeaderValue;
                } else {
                    push_char(&mut self.header_name, byte as char);
                }
            },
            ParserState::HeaderValue => {
                if byte == SPACE || byte == CR {
                } else if byte == LF {
                    let name = lowercase(&self.header_name);
                    let value = self.header_value.clone();
                    insert_header(&mut self.headers, name, value);
                    self.header_name = String::new();
                    self.header_value = String::new();
                    self.state = ParserState::HeaderStart;
                } else {
                    push_char(&mut self.header_value, byte as char);
                }
            },
            ParserState::Body => {
                if self.body_remaining == 0 {
                    self.responses_parsed = self.responses_parsed + 1;
                    self.state = ParserState::Started;
                } else if self.body_remaining > 0 {
                    self.body_remaining = self.body_remaining - 1;
                }
            },
            ParserState::HeaderEnd | ParserState::End => {},
        }
    }

    /// Consumes `data`, which may end anywhere inside a response.
    pub fn parse(&mut self, data: &[u8])
        requires
            old(self).wf(),
            old(self).responses_parsed + data@.len() <= usize::MAX,
        ensures
            final(self).wf(),
            final(self)@ == feed(old(self)@, data@),
    {
        let n = data.len();
        let mut i: usize = 0;
        while i < n
            invariant
                n == data@.len(),
                i <= n,
                self.wf(),
                self@ == feed(old(self)@, data@.subrange(0, i as int)),
                self.responses_parsed <= old(self).responses_parsed + i,
                old(self).responses_parsed + n <= usize::MAX,
            decreases n - i,
        {
            let ghost prefix = data@.subrange(0, i as int);
            assert(data@.subrange(0, i + 1).drop_last() =~= prefix);
            self.step(data[i]);
            i = i + 1;
        }
        assert(data@.subrange(0, n as int) =~= data@);
    }
}

} // verus!
