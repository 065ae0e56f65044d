//! A minimal HTTP/1.1 request and response model plus a small parser. This is
//! deliberately just enough to route on: methods, path, headers and an optional
//! body. It is not a hardened server parser.

use vstd::prelude::*;
use vstd::string::*;

use crate::scan::end_of_line;
use crate::scan::end_without_cr;
use crate::scan::find;
use crate::scan::find_in;
use crate::scan::follow_each_other;
use crate::scan::in_some_word;
use crate::scan::inside;
use crate::scan::is_blank;
use crate::scan::law_first_occurrence_is_found;
use crate::scan::law_lines_make_up_text;
use crate::scan::law_trimming_drops_only_outer_blanks;
use crate::scan::law_words_are_stretches_between_blanks;
use crate::scan::lemma_range_ends;
use crate::scan::line_ranges;
use crate::scan::lines;
use crate::scan::pieces;
use crate::scan::trim_range;
use crate::scan::trimmed;
use crate::scan::without_cr;
use crate::scan::word_ranges;
use crate::scan::words;
use crate::text::chars_of;
use crate::text::eq_ignoring_case;
use crate::text::law_only_ascii_case_is_ignored;
use crate::text::same;
use crate::text::same_ignoring_case;
use crate::text::same_letter;
use crate::text::IntoBytes;
use crate::text::IntoText;

verus! {

#[derive(Debug, PartialEq, Eq)]
pub enum Method {
    Get,
    Post,
    Put,
    Delete,
    Patch,
    Head,
    Options,
    Other(String),
}

/// A method apart from how its name is stored.
pub enum MethodView {
    Get,
    Post,
    Put,
    Delete,
    Patch,
    Head,
    Options,
    Other(Seq<char>),
}

impl View for Method {
    type V = MethodView;

    open spec fn view(&self) -> MethodView {
        match self {
            Method::Get => MethodView::Get,
            Method::Post => MethodView::Post,
            Method::Put => MethodView::Put,
            Method::Delete => MethodView::Delete,
            Method::Patch => MethodView::Patch,
            Method::Head => MethodView::Head,
            Method::Options => MethodView::Options,
            Method::Other(s) => MethodView::Other(s@),
        }
    }
}

impl Clone for Method {
    fn clone(&self) -> (copy: Self)
        ensures
            copy@ == self@,
    {
        match self {
            Method::Get => Method::Get,
            Method::Post => Method::Post,
            Method::Put => Method::Put,
            Method::Delete => Method::Delete,
            Method::Patch => Method::Patch,
            Method::Head => Method::Head,
            Method::Options => Method::Options,
            Method::Other(s) => Method::Other(s.clone()),
        }
    }
}

/// The method that a request line names.
pub open spec fn method_named(s: Seq<char>) -> MethodView {
    if s == "GET"@ {
        MethodView::Get
    } else if s == "POST"@ {
        MethodView::Post
    } else if s == "PUT"@ {
        MethodView::Put
    } else if s == "DELETE"@ {
        MethodView::Delete
    } else if s == "PATCH"@ {
        MethodView::Patch
    } else if s == "HEAD"@ {
        MethodView::Head
    } else if s == "OPTIONS"@ {
        MethodView::Options
    } else {
        MethodView::Other(s)
    }
}

impl MethodView {
    pub open spec fn name(self) -> Seq<char> {
        match self {
            MethodView::Get => "GET"@,
            MethodView::Post => "POST"@,
            MethodView::Put => "PUT"@,
            MethodView::Delete => "DELETE"@,
            MethodView::Patch => "PATCH"@,
            MethodView::Head => "HEAD"@,
            MethodView::Options => "OPTIONS"@,
            MethodView::Other(s) => s,
        }
    }

    /// Doing it twice changes no more than doing it once.
    pub open spec fn is_idempotent(self) -> bool {
        match self {
            MethodView::Post | MethodView::Patch | MethodView::Other(_) => false,
            _ => true,
        }
    }
}

impl Method {
    pub fn parse(s: &str) -> (method: Method)
        ensures
            method@ == method_named(s@),
    {
        if same(s, "GET") {
            Method::Get
        } else if same(s, "POST") {
            Method::Post
        } else if same(s, "PUT") {
            Method::Put
        } else if same(s, "DELETE") {
            Method::Delete
        } else if same(s, "PATCH") {
            Method::Patch
        } else if same(s, "HEAD") {
            Method::Head
        } else if same(s, "OPTIONS") {
            Method::Options
        } else {
            Method::Other(s.to_owned())
        }
    }

    pub fn as_str(&self) -> (name: &str)
        ensures
            name@ == self@.name(),
    {
        match self {
            Method::Get => "GET",
            Method::Post => "POST",
            Method::Put => "PUT",
            Method::Delete => "DELETE",
            Method::Patch => "PATCH",
            Method::Head => "HEAD",
            Method::Options => "OPTIONS",
            Method::Other(s) => s.as_str(),
        }
    }

    /// Whether it is safe to retry this method on a different upstream without
    /// changing observable state. Only idempotent methods qualify.
    pub fn is_idempotent(&self) -> (idempotent: bool)
        ensures
            idempotent == self@.is_idempotent(),
            idempotent == (self is Get || self is Head || self is Put || self is Delete
                || self is Options),
    {
        match self {
            Method::Get | Method::Head | Method::Put | Method::Delete | Method::Options => true,
            _ => false,
        }
    }
}

/// Reading a method name and writing it back gives the same name.
pub proof fn law_method_name_round_trips(s: Seq<char>)
    ensures
        method_named(s).name() == s,
{
}

/// Each method has the name that HTTP gives it and is found under it, and every other
/// text names a method of its own. Names are told apart by case.
pub proof fn law_methods_have_their_names(s: Seq<char>)
    ensures
        method_named("GET"@) is Get,
        method_named("POST"@) is Post,
        method_named("PUT"@) is Put,
        method_named("DELETE"@) is Delete,
        method_named("PATCH"@) is Patch,
        method_named("HEAD"@) is Head,
        method_named("OPTIONS"@) is Options,
        method_named(s) is Other <==> s != "GET"@ && s != "POST"@ && s != "PUT"@ && s
            != "DELETE"@ && s != "PATCH"@ && s != "HEAD"@ && s != "OPTIONS"@,
        method_named(s) matches MethodView::Other(name) ==> name == s,
{
    reveal_strlit("GET");
    reveal_strlit("POST");
    reveal_strlit("PUT");
    reveal_strlit("DELETE");
    reveal_strlit("PATCH");
    reveal_strlit("HEAD");
    reveal_strlit("OPTIONS");
    assert("GET"@.len() == 3 && "PUT"@.len() == 3 && "GET"@[0] == 'G' && "PUT"@[0] == 'P');
    assert("POST"@.len() == 4 && "HEAD"@.len() == 4 && "POST"@[0] == 'P' && "HEAD"@[0] == 'H');
    assert("PATCH"@.len() == 5 && "DELETE"@.len() == 6 && "OPTIONS"@.len() == 7);
}

/// The headers of a message as texts.
pub open spec fn header_list(headers: Seq<(String, String)>) -> Seq<(Seq<char>, Seq<char>)> {
    headers.map_values(|h: (String, String)| (h.0@, h.1@))
}

/// The value of the first header of that name, whatever the case of its ASCII
/// letters.
pub open spec fn header_value(headers: Seq<(Seq<char>, Seq<char>)>, name: Seq<char>) -> Option<
    Seq<char>,
>
    decreases headers.len(),
{
    if headers.len() == 0 {
        None
    } else if same_ignoring_case(headers[0].0, name) {
        Some(headers[0].1)
    } else {
        header_value(headers.skip(1), name)
    }
}

/// A header is looked up by its name, the case of ASCII letters aside: the value is
/// that of the first header with the name, and there is none when no header has it.
pub proof fn law_first_header_of_the_name_is_found(
    headers: Seq<(Seq<char>, Seq<char>)>,
    name: Seq<char>,
)
    ensures
        match header_value(headers, name) {
            Some(value) => exists|i: int|
                {
                    &&& 0 <= i < headers.len()
                    &&& (#[trigger] headers[i]).1 == value
                    &&& is_named(headers[i], name)
                    &&& forall|j: int| 0 <= j < i ==> !is_named(#[trigger] headers[j], name)
                },
            None => forall|i: int|
                0 <= i < headers.len() ==> !is_named(#[trigger] headers[i], name),
        },
    decreases headers.len(),
{
    if headers.len() > 0 {
        let rest = headers.skip(1);
        law_only_ascii_case_is_ignored(headers[0].0, name);
        if is_named(headers[0], name) {
            assert(headers[0].1 == header_value(headers, name)->0);
        } else {
            law_first_header_of_the_name_is_found(rest, name);
            if header_value(rest, name) is Some {
                let value = header_value(rest, name)->0;
                let i = choose|i: int|
                    {
                        &&& 0 <= i < rest.len()
                        &&& (#[trigger] rest[i]).1 == value
                        &&& is_named(rest[i], name)
                        &&& forall|j: int| 0 <= j < i ==> !is_named(#[trigger] rest[j], name)
                    };
                assert(headers[i + 1] == rest[i]);
                assert forall|j: int| 0 <= j < i + 1 implies !is_named(
                    #[trigger] headers[j],
                    name,
                ) by {
                    if j > 0 {
                        assert(rest[j - 1] == headers[j]);
                    }
                }
            } else {
                assert forall|i: int| 0 <= i < headers.len() implies !is_named(
                    #[trigger] headers[i],
                    name,
                ) by {
                    if i > 0 {
                        assert(rest[i - 1] == headers[i]);
                    }
                }
            }
        }
    }
}

/// The header has the name, letter by letter and the case of ASCII letters aside.
pub open spec fn is_named(header: (Seq<char>, Seq<char>), name: Seq<char>) -> bool {
    &&& header.0.len() == name.len()
    &&& forall|i: int| 0 <= i < name.len() ==> same_letter(#[trigger] header.0[i], name[i])
}

#[derive(Debug)]
pub struct Request {
    pub method: Method,
    pub path: String,
    pub version: String,
    pub headers: Vec<(String, String)>,
    pub body: Vec<u8>,
}

impl Clone for Request {
    fn clone(&self) -> (copy: Self)
        ensures
            copy@ == self@,
    {
        Request {
            method: self.method.clone(),
            path: self.path.clone(),
            version: self.version.clone(),
            headers: copy_headers(&self.headers),
            body: vstd::slice::slice_to_vec(self.body.as_slice()),
        }
    }
}

fn copy_headers(headers: &Vec<(String, String)>) -> (copy: Vec<(String, String)>)
    ensures
        header_list(copy@) == header_list(headers@),
{
    let mut copy: Vec<(String, String)> = Vec::new();
    let mut i: usize = 0;
    while i < headers.len()
        invariant
            i <= headers@.len(),
            copy@.len() == i,
            forall|j: int|
                0 <= j < i ==> (#[trigger] copy@[j]).0@ == headers@[j].0@ && copy@[j].1@
                    == headers@[j].1@,
        decreases headers@.len() - i,
    {
        copy.push((headers[i].0.clone(), headers[i].1.clone()));
        i += 1;
    }
    assert(header_list(copy@) =~= header_list(headers@));
    copy
}

/// A request apart from how it is stored.
#[verifier::ext_equal]
pub struct RequestView {
    pub method: MethodView,
    pub path: Seq<char>,
    pub version: Seq<char>,
    pub headers: Seq<(Seq<char>, Seq<char>)>,
    pub body: Seq<u8>,
}

impl View for Request {
    type V = RequestView;

    open spec fn view(&self) -> RequestView {
        RequestView {
            method: self.method@,
            path: self.path@,
            version: self.version@,
            headers: header_list(self.headers@),
            body: self.body@,
        }
    }
}

impl RequestView {
    /// A request with nothing but a method and a path.
    pub open spec fn bare(method: MethodView, path: Seq<char>) -> RequestView {
        RequestView {
            method,
            path,
            version: "HTTP/1.1"@,
            headers: Seq::empty(),
            body: Seq::empty(),
        }
    }

    pub open spec fn header(self, name: Seq<char>) -> Option<Seq<char>> {
        header_value(self.headers, name)
    }

    pub open spec fn host(self) -> Option<Seq<char>> {
        self.header("Host"@)
    }
}

/// The first line from line `from` on that is empty once its carriage returns are
/// gone, or the number of lines when there is none.
pub open spec fn first_blank(all: Seq<Seq<char>>, from: int) -> int
    decreases all.len() - from,
{
    if from >= all.len() {
        all.len() as int
    } else if without_cr(all[from]).len() == 0 {
        from
    } else {
        first_blank(all, from + 1)
    }
}

/// The line that ends the head of a raw request: the first blank one behind the
/// request line, or the number of lines when there is none.
pub open spec fn blank_line(raw: Seq<char>) -> int {
    first_blank(lines(raw), 1)
}

/// Where the body of a raw request starts: behind the line feed of the blank line
/// that ends the head, or at the end when there is no such line or nothing follows
/// it.
pub open spec fn body_start(raw: Seq<char>) -> int {
    let k = blank_line(raw);
    if k < lines(raw).len() - 1 {
        end_of_line(lines(raw), k) + 1
    } else {
        raw.len() as int
    }
}

/// One header line cut at its first colon, both sides trimmed.
pub open spec fn header_in(line: Seq<char>) -> Option<(Seq<char>, Seq<char>)> {
    match find(line, ":"@, 0) {
        Some(i) => Some((trimmed(line.take(i)), trimmed(line.skip(i + 1)))),
        None => None,
    }
}

/// The headers in the first `n` lines, or the first line that is no header. The
/// request line is passed over.
pub open spec fn headers_in(all: Seq<Seq<char>>, n: int) -> Result<
    Seq<(Seq<char>, Seq<char>)>,
    Seq<char>,
>
    decreases n,
{
    if n <= 1 {
        Ok(Seq::empty())
    } else {
        match headers_in(all, n - 1) {
            Err(line) => Err(line),
            Ok(found) => {
                let line = without_cr(all[n - 1]);
                match header_in(line) {
                    Some(header) => Ok(found.push(header)),
                    None => Err(line),
                }
            },
        }
    }
}

/// What a raw request says.
pub open spec fn parsed(raw: Seq<char>) -> Result<RequestView, ParseErrorView> {
    let all = lines(raw);
    let request_line = without_cr(all[0]);
    let parts = words(request_line);
    if trimmed(request_line).len() == 0 {
        Err(ParseErrorView::Empty)
    } else if parts.len() < 2 {
        Err(ParseErrorView::MalformedRequestLine)
    } else {
        match headers_in(all, blank_line(raw)) {
            Err(line) => Err(ParseErrorView::MalformedHeader(line)),
            Ok(headers) => Ok(
                RequestView {
                    method: method_named(parts[0]),
                    path: parts[1],
                    version: if parts.len() > 2 {
                        parts[2]
                    } else {
                        "HTTP/1.1"@
                    },
                    headers,
                    body: vstd::utf8::encode_utf8(raw.skip(body_start(raw))),
                },
            ),
        }
    }
}

impl Request {
    pub fn new<P: IntoText>(method: Method, path: P) -> (req: Self)
        ensures
            req@ == RequestView::bare(method@, path.text()),
    {
        let headers: Vec<(String, String)> = Vec::new();
        assert(header_list(headers@) =~= Seq::empty());
        Self {
            method,
            path: path.into_text(),
            version: "HTTP/1.1".to_owned(),
            headers,
            body: Vec::new(),
        }
    }

    pub fn get<P: IntoText>(path: P) -> (req: Self)
        ensures
            req@ == RequestView::bare(MethodView::Get, path.text()),
    {
        Request::new(Method::Get, path)
    }

    #[must_use]
    pub fn with_header<N: IntoText, V: IntoText>(self, name: N, value: V) -> (req: Self)
        ensures
            req@ == (RequestView {
                headers: self@.headers.push((name.text(), value.text())),
                ..self@
            }),
    {
        let ghost before = self@.headers;
        let mut req: Request = self;
        req.headers.push((name.into_text(), value.into_text()));
        assert(header_list(req.headers@) =~= before.push((name.text(), value.text())));
        req
    }

    /// Case insensitive header lookup, first match wins.
    pub fn header(&self, name: &str) -> (value: Option<&str>)
        ensures
            match value {
                Some(v) => self@.header(name@) == Some(v@),
                None => self@.header(name@) is None,
            },
    {
        let ghost all = self@.headers;
        let mut i: usize = 0;
        assert(all.skip(0) =~= all);
        while i < self.headers.len()
            invariant
                i <= self.headers@.len(),
                all == header_list(self.headers@),
                header_value(all, name@) == header_value(all.skip(i as int), name@),
            decreases self.headers@.len() - i,
        {
            assert(all.skip(i as int)[0] == (
                self.headers@[i as int].0@,
                self.headers@[i as int].1@,
            ));
            if eq_ignoring_case(self.headers[i].0.as_str(), name) {
                return Some(self.headers[i].1.as_str());
            }
            assert(all.skip(i as int).skip(1) =~= all.skip(i + 1));
            i += 1;
        }
        None
    }

    pub fn host(&self) -> (value: Option<&str>)
        ensures
            match value {
                Some(v) => self@.host() == Some(v@),
                None => self@.host() is None,
            },
    {
        self.header("Host")
    }

    /// The request that an active health probe sends.
    pub fn probe() -> (req: Self)
        ensures
            req@ == RequestView::bare(MethodView::Head, "/healthz"@),
    {
        Request::new(Method::Head, "/healthz")
    }

    /// Parse a raw HTTP/1.1 request. Headers are split on the first colon and
    /// trimmed. The body is everything after the blank line, the first line behind
    /// the request line that holds nothing but carriage returns.
    ///
    /// # Errors
    ///
    /// Returns `ParseError::Empty` for an empty or blank request and
    /// `ParseError::MalformedRequestLine` or `ParseError::MalformedHeader` when
    /// the request line or a header line cannot be split.
    pub fn parse(raw: &str) -> (result: Result<Request, ParseError>)
        ensures
            match result {
                Ok(req) => parsed(raw@) == Ok::<RequestView, ParseErrorView>(req@),
                Err(e) => parsed(raw@) == Err::<RequestView, ParseErrorView>(e@),
            },
    {
        let buf: Vec<char> = chars_of(raw);
        let n: usize = buf.len();
        assert(buf@.subrange(0, n as int) =~= raw@);
        let ghost all = lines(raw@);
        let ranges: Vec<(usize, usize)> = line_ranges(&buf, 0, n);
        assert(pieces(buf@, ranges@)[0] == all[0]);

        let first: (usize, usize) = ranges[0];
        let line_end: usize = end_without_cr(&buf, first.0, first.1);
        let ghost request_line = without_cr(all[0]);
        let (text_start, text_end): (usize, usize) = trim_range(&buf, first.0, line_end);
        assert(trimmed(request_line).len() == text_end - text_start);
        if text_start == text_end {
            return Err(ParseError::Empty);
        }
        let parts: Vec<(usize, usize)> = word_ranges(&buf, first.0, line_end);
        let ghost named = words(request_line);
        assert(pieces(buf@, parts@) == named);
        if parts.len() < 2 {
            return Err(ParseError::MalformedRequestLine);
        }
        let method: &str = raw.substring_char(parts[0].0, parts[0].1);
        let path: &str = raw.substring_char(parts[1].0, parts[1].1);
        assert(method@ == pieces(buf@, parts@)[0]);
        assert(path@ == pieces(buf@, parts@)[1]);
        let version: &str = if parts.len() > 2 {
            let v: &str = raw.substring_char(parts[2].0, parts[2].1);
            assert(v@ == pieces(buf@, parts@)[2]);
            v
        } else {
            "HTTP/1.1"
        };

        let colon: Vec<char> = chars_of(":");
        let mut headers: Vec<(String, String)> = Vec::new();
        let mut i: usize = 1;
        assert(header_list(headers@) =~= Seq::empty());
        proof {
            reveal_strlit(":");
        }
        let mut body_start: usize = n;
        while i < ranges.len()
            invariant_except_break
                first_blank(all, 1) == first_blank(all, i as int),
                body_start == n,
            invariant
                buf@ == raw@,
                n == buf@.len(),
                colon@ == ":"@,
                colon@.len() == 1,
                inside(buf@, ranges@),
                follow_each_other(ranges@, 0),
                pieces(buf@, ranges@) == all,
                1 <= i <= ranges@.len(),
                headers_in(all, i as int) == Ok::<Seq<(Seq<char>, Seq<char>)>, Seq<char>>(
                    header_list(headers@),
                ),
                all == lines(raw@),
                request_line == without_cr(all[0]),
                trimmed(request_line).len() != 0,
                words(request_line).len() >= 2,
            ensures
                i == blank_line(raw@),
                body_start == self::body_start(raw@),
                body_start <= n,
            decreases ranges@.len() - i,
        {
            let r: (usize, usize) = ranges[i];
            assert(pieces(buf@, ranges@)[i as int] == all[i as int]);
            let end: usize = end_without_cr(&buf, r.0, r.1);
            let ghost line = without_cr(all[i as int]);
            assert(line == buf@.subrange(r.0 as int, end as int));
            if r.0 == end {
                proof {
                    lemma_range_ends(buf@, ranges@, i as int);
                }
                if i + 1 < ranges.len() {
                    assert(ranges@[i + 1].0 == r.1 + 1);
                    body_start = r.1 + 1;
                }
                break;
            }
            match find_in(&buf, r.0, end, &colon) {
                None => {
                    proof {
                        lemma_blank_not_before(all, i + 1);
                        lemma_bad_header_stays(all, i + 1, blank_line(raw@));
                    }
                    return Err(
                        ParseError::MalformedHeader(raw.substring_char(r.0, end).to_owned()),
                    );
                },
                Some(c) => {
                    let (name_start, name_end): (usize, usize) = trim_range(&buf, r.0, c);
                    let (value_start, value_end): (usize, usize) = trim_range(&buf, c + 1, end);
                    let name: String = raw.substring_char(name_start, name_end).to_owned();
                    let value: String = raw.substring_char(value_start, value_end).to_owned();
                    let ghost before = header_list(headers@);
                    assert(line.take(c - r.0) =~= buf@.subrange(r.0 as int, c as int));
                    assert(line.skip(c - r.0 + 1) =~= buf@.subrange(c + 1, end as int));
                    headers.push((name, value));
                    assert(header_list(headers@) =~= before.push((name@, value@)));
                },
            }
            i += 1;
        }
        let body: Vec<u8> = raw.substring_char(body_start, n).as_bytes_vec();
        assert(raw@.subrange(body_start as int, n as int) =~= raw@.skip(body_start as int));
        Ok(
            Request {
                method: Method::parse(method),
                path: path.to_owned(),
                version: version.to_owned(),
                headers,
                body,
            },
        )
    }
}

/// What is found from line `from` on, if anything is, is not before it, and none
/// of the lines that were passed over is blank.
proof fn lemma_blank_not_before(all: Seq<Seq<char>>, from: int)
    requires
        0 <= from <= all.len(),
    ensures
        from <= first_blank(all, from) <= all.len(),
        forall|j: int|
            from <= j < first_blank(all, from) ==> without_cr(#[trigger] all[j]).len() > 0,
        first_blank(all, from) < all.len() ==> without_cr(all[first_blank(all, from)]).len() == 0,
    decreases all.len() - from,
{
    if from < all.len() && without_cr(all[from]).len() > 0 {
        lemma_blank_not_before(all, from + 1);
    }
}

/// A line that is no header decides the outcome, whatever follows it.
proof fn lemma_bad_header_stays(all: Seq<Seq<char>>, n: int, m: int)
    requires
        n <= m,
        headers_in(all, n) is Err,
    ensures
        headers_in(all, m) == headers_in(all, n),
    decreases m - n,
{
    if n < m {
        lemma_bad_header_stays(all, n, m - 1);
    }
}

#[derive(Debug, PartialEq, Eq)]
pub struct Response {
    pub status: u16,
    pub reason: String,
    pub headers: Vec<(String, String)>,
    pub body: Vec<u8>,
}

impl Clone for Response {
    fn clone(&self) -> (copy: Self)
        ensures
            copy@ == self@,
    {
        Response {
            status: self.status,
            reason: self.reason.clone(),
            headers: copy_headers(&self.headers),
            body: vstd::slice::slice_to_vec(self.body.as_slice()),
        }
    }
}

/// A response apart from how it is stored.
#[verifier::ext_equal]
pub struct ResponseView {
    pub status: u16,
    pub reason: Seq<char>,
    pub headers: Seq<(Seq<char>, Seq<char>)>,
    pub body: Seq<u8>,
}

impl View for Response {
    type V = ResponseView;

    open spec fn view(&self) -> ResponseView {
        ResponseView {
            status: self.status,
            reason: self.reason@,
            headers: header_list(self.headers@),
            body: self.body@,
        }
    }
}

impl ResponseView {
    /// A response with nothing but a status and its phrase.
    pub open spec fn bare(status: u16) -> ResponseView {
        ResponseView {
            status,
            reason: phrase(status),
            headers: Seq::empty(),
            body: Seq::empty(),
        }
    }

    pub open spec fn is_success(self) -> bool {
        200 <= self.status < 400
    }

    pub open spec fn is_server_error(self) -> bool {
        self.status >= 500
    }
}

impl Response {
    pub fn new(status: u16) -> (resp: Self)
        ensures
            resp@ == ResponseView::bare(status),
    {
        let headers: Vec<(String, String)> = Vec::new();
        assert(header_list(headers@) =~= Seq::empty());
        Self { status, reason: reason_phrase(status).to_owned(), headers, body: Vec::new() }
    }

    #[must_use]
    pub fn with_body<B: IntoBytes>(self, body: B) -> (resp: Self)
        ensures
            resp@ == (ResponseView { body: body.bytes(), ..self@ }),
    {
        let mut resp: Response = self;
        resp.body = body.into_bytes_vec();
        resp
    }

    pub fn is_success(&self) -> (success: bool)
        ensures
            success == self@.is_success(),
            success == (200 <= self.status < 400),
    {
        200 <= self.status && self.status < 400
    }

    pub fn is_server_error(&self) -> (error: bool)
        ensures
            error == self@.is_server_error(),
            error == (self.status >= 500),
    {
        self.status >= 500
    }
}

/// The phrase that goes with a status.
pub open spec fn phrase(status: u16) -> Seq<char> {
    if status == 200 {
        "OK"@
    } else if status == 201 {
        "Created"@
    } else if status == 204 {
        "No Content"@
    } else if status == 301 {
        "Moved Permanently"@
    } else if status == 302 {
        "Found"@
    } else if status == 304 {
        "Not Modified"@
    } else if status == 400 {
        "Bad Request"@
    } else if status == 401 {
        "Unauthorized"@
    } else if status == 403 {
        "Forbidden"@
    } else if status == 404 {
        "Not Found"@
    } else if status == 429 {
        "Too Many Requests"@
    } else if status == 500 {
        "Internal Server Error"@
    } else if status == 502 {
        "Bad Gateway"@
    } else if status == 503 {
        "Service Unavailable"@
    } else if status == 504 {
        "Gateway Timeout"@
    } else {
        "Unknown"@
    }
}

pub fn reason_phrase(status: u16) -> (reason: &'static str)
    ensures
        reason@ == phrase(status),
{
    match status {
        200 => "OK",
        201 => "Created",
        204 => "No Content",
        301 => "Moved Permanently",
        302 => "Found",
        304 => "Not Modified",
        400 => "Bad Request",
        401 => "Unauthorized",
        403 => "Forbidden",
        404 => "Not Found",
        429 => "Too Many Requests",
        500 => "Internal Server Error",
        502 => "Bad Gateway",
        503 => "Service Unavailable",
        504 => "Gateway Timeout",
        _ => "Unknown",
    }
}

#[derive(Debug, PartialEq, Eq)]
pub enum ParseError {
    Empty,
    MalformedRequestLine,
    MalformedHeader(String),
}

/// A parse error apart from how its text is stored.
pub enum ParseErrorView {
    Empty,
    MalformedRequestLine,
    MalformedHeader(Seq<char>),
}

impl ParseErrorView {
    pub open spec fn text(self) -> Seq<char> {
        match self {
            ParseErrorView::Empty => "empty request"@,
            ParseErrorView::MalformedRequestLine => "malformed request line"@,
            ParseErrorView::MalformedHeader(line) => "malformed header: "@ + line,
        }
    }
}

impl View for ParseError {
    type V = ParseErrorView;

    open spec fn view(&self) -> ParseErrorView {
        match self {
            ParseError::Empty => ParseErrorView::Empty,
            ParseError::MalformedRequestLine => ParseErrorView::MalformedRequestLine,
            ParseError::MalformedHeader(line) => ParseErrorView::MalformedHeader(line@),
        }
    }
}

impl Clone for ParseError {
    fn clone(&self) -> (copy: Self)
        ensures
            copy@ == self@,
    {
        match self {
            ParseError::Empty => ParseError::Empty,
            ParseError::MalformedRequestLine => ParseError::MalformedRequestLine,
            ParseError::MalformedHeader(line) => ParseError::MalformedHeader(line.clone()),
        }
    }
}

impl ParseError {
    /// The error in words.
    pub fn message(&self) -> (text: String)
        ensures
            text@ == self@.text(),
            text@ == match self@ {
                ParseErrorView::Empty => "empty request"@,
                ParseErrorView::MalformedRequestLine => "malformed request line"@,
                ParseErrorView::MalformedHeader(line) => "malformed header: "@ + line,
            },
    {
        match self {
            ParseError::Empty => "empty request".to_owned(),
            ParseError::MalformedRequestLine => "malformed request line".to_owned(),
            ParseError::MalformedHeader(line) => {
                let mut text: String = "malformed header: ".to_owned();
                text.append(line.as_str());
                text
            },
        }
    }
}

/// The head of a raw request ends at the first line behind the request line that is
/// empty once its carriage returns are gone. The body of a parsed request is
/// everything behind the line feed of that line. Where there is no such line, every
/// line is head and the body is empty.
pub proof fn law_body_follows_first_blank_line(raw: Seq<char>)
    ensures
        ({
            let all = lines(raw);
            let k = blank_line(raw);
            let start = body_start(raw);
            &&& 1 <= k <= all.len()
            &&& forall|j: int| 1 <= j < k ==> without_cr(#[trigger] all[j]).len() > 0
            &&& k < all.len() ==> {
                let end = end_of_line(all, k);
                &&& without_cr(all[k]).len() == 0
                &&& all[k].len() <= end <= raw.len()
                &&& all[k] == raw.subrange(end - all[k].len(), end)
                &&& end < raw.len() ==> raw[end] == '\n' && start == end + 1
                &&& end == raw.len() ==> start == raw.len()
            }
            &&& k == all.len() ==> start == raw.len()
            &&& 0 <= start <= raw.len()
            &&& parsed(raw) matches Ok(req) ==> req.body == vstd::utf8::encode_utf8(raw.skip(start))
            &&& parsed(raw) matches Ok(req) ==> headers_in(all, k) == Ok::<
                Seq<(Seq<char>, Seq<char>)>,
                Seq<char>,
            >(req.headers)
        }),
{
    law_lines_make_up_text(raw);
    lemma_blank_not_before(lines(raw), 1);
    let all = lines(raw);
    let k = blank_line(raw);
    if k < all.len() - 1 {
        assert(all[k] == lines(raw)[k]);
        assert(end_of_line(all, k) < raw.len());
    }
}

/// Nothing but blanks.
pub open spec fn all_blank(s: Seq<char>) -> bool {
    forall|i: int| 0 <= i < s.len() ==> is_blank(#[trigger] s[i])
}

/// The text neither begins nor ends with a blank.
pub open spec fn is_trim(s: Seq<char>) -> bool {
    s.len() > 0 ==> !is_blank(s[0]) && !is_blank(s.last())
}

/// A line says a header: it is the name, a colon and the value, with blanks around
/// the name and around the value and nothing else. The name holds no colon.
pub open spec fn says_header(
    line: Seq<char>,
    header: (Seq<char>, Seq<char>),
    gaps: (Seq<char>, Seq<char>, Seq<char>, Seq<char>),
) -> bool {
    let (name, value) = header;
    let (a, b, c, d) = gaps;
    &&& all_blank(a) && all_blank(b) && all_blank(c) && all_blank(d)
    &&& line == a + name + b + seq![':'] + c + value + d
    &&& !name.contains(':')
    &&& is_trim(name) && is_trim(value)
}

/// A line says a header, with whatever blanks.
pub open spec fn is_header_line(line: Seq<char>, header: (Seq<char>, Seq<char>)) -> bool {
    exists|gaps: (Seq<char>, Seq<char>, Seq<char>, Seq<char>)| says_header(line, header, gaps)
}

/// A line without a colon is no header. Any other line gives the name before its first
/// colon and the value behind it, of which nothing but the blanks around them is
/// dropped. Those blanks are returned.
pub proof fn law_header_keeps_all_but_outer_blanks(line: Seq<char>) -> (gaps: (
    Seq<char>,
    Seq<char>,
    Seq<char>,
    Seq<char>,
))
    ensures
        header_in(line) is Some <==> line.contains(':'),
        header_in(line) matches Some(header) ==> says_header(line, header, gaps),
{
    reveal_strlit(":");
    law_first_occurrence_is_found(line, ":"@, 0);
    match find(line, ":"@, 0) {
        None => {
            if line.contains(':') {
                let i = choose|i: int| 0 <= i < line.len() && line[i] == ':';
                assert(line.subrange(i, i + 1) =~= ":"@);
            }
            (Seq::empty(), Seq::empty(), Seq::empty(), Seq::empty())
        },
        Some(i) => {
            let left = line.take(i);
            let right = line.skip(i + 1);
            assert(line.subrange(i, i + 1)[0] == ':');
            assert(line[i] == ':');
            let (lo, hi) = law_trimming_drops_only_outer_blanks(left);
            let (from, to) = law_trimming_drops_only_outer_blanks(right);
            let name = trimmed(left);
            let value = trimmed(right);
            let gaps = (left.take(lo), left.skip(hi), right.take(from), right.skip(to));
            assert(line =~= gaps.0 + name + gaps.1 + seq![':'] + gaps.2 + value + gaps.3);
            if name.contains(':') {
                let j = choose|j: int| 0 <= j < name.len() && name[j] == ':';
                assert(line[lo + j] == ':');
                assert(line.subrange(lo + j, lo + j + 1) =~= ":"@);
            }
            if lo < hi {
                assert(name[0] == left[lo] && name.last() == left[hi - 1]);
            }
            if from < to {
                assert(value[0] == right[from] && value.last() == right[to - 1]);
            }
            gaps
        },
    }
}

/// `k` is the first line behind the request line that holds nothing but carriage
/// returns, or the number of lines when there is none.
pub open spec fn head_ends_at(raw: Seq<char>, k: int) -> bool {
    &&& 1 <= k <= lines(raw).len()
    &&& forall|j: int| 1 <= j < k ==> without_cr(#[trigger] lines(raw)[j]).len() > 0
    &&& k < lines(raw).len() ==> without_cr(lines(raw)[k]).len() == 0
}

proof fn lemma_head_end(raw: Seq<char>, k: int)
    requires
        head_ends_at(raw, k),
    ensures
        blank_line(raw) == k,
{
    let b = blank_line(raw);
    lemma_blank_not_before(lines(raw), 1);
    if b < k {
        assert(without_cr(lines(raw)[b]).len() > 0);
    } else if k < b {
        assert(without_cr(lines(raw)[k]).len() > 0);
    }
}

/// What the headers in the first `n` lines are, or which line is the first that is
/// none.
proof fn lemma_headers_in(all: Seq<Seq<char>>, n: int)
    requires
        1 <= n,
    ensures
        match headers_in(all, n) {
            Ok(found) => {
                &&& found.len() == n - 1
                &&& forall|j: int|
                    0 <= j < n - 1 ==> header_in(without_cr(all[j + 1])) == Some(
                        #[trigger] found[j],
                    )
            },
            Err(line) => exists|j: int|
                {
                    &&& 1 <= j < n
                    &&& line == without_cr(#[trigger] all[j])
                    &&& !without_cr(all[j]).contains(':')
                    &&& forall|i: int| 1 <= i < j ==> without_cr(#[trigger] all[i]).contains(':')
                },
        },
    decreases n,
{
    if n > 1 {
        lemma_headers_in(all, n - 1);
        law_header_keeps_all_but_outer_blanks(without_cr(all[n - 1]));
        match headers_in(all, n - 1) {
            Ok(found) => {
                assert forall|i: int| 1 <= i < n - 1 implies without_cr(
                    #[trigger] all[i],
                ).contains(':') by {
                    assert(header_in(without_cr(all[i])) == Some(found[i - 1]));
                    law_header_keeps_all_but_outer_blanks(without_cr(all[i]));
                }
                if headers_in(all, n) is Err {
                    let line = headers_in(all, n)->Err_0;
                    assert(line == without_cr(all[n - 1]));
                }
            },
            Err(line) => {
                let j = choose|j: int|
                    {
                        &&& 1 <= j < n - 1
                        &&& line == without_cr(#[trigger] all[j])
                        &&& !without_cr(all[j]).contains(':')
                        &&& forall|i: int|
                            1 <= i < j ==> without_cr(#[trigger] all[i]).contains(':')
                    };
                assert(line == without_cr(all[j]));
            },
        }
    }
}

/// A text is refused for its lines and for nothing else: as empty exactly when its
/// first line is blank, for its request line exactly when that is a single word, and
/// for a header exactly when a line of the head has no colon. The error carries the
/// first such line.
pub proof fn law_parsing_refuses_only_bad_lines(raw: Seq<char>, k: int)
    requires
        head_ends_at(raw, k),
    ensures
        ({
            let all = lines(raw);
            let first = without_cr(all[0]);
            let bad = exists|j: int| 1 <= j < k && !without_cr(#[trigger] all[j]).contains(':');
            match parsed(raw) {
                Err(ParseErrorView::Empty) => all_blank(first),
                Err(ParseErrorView::MalformedRequestLine) => !all_blank(first) && words(first).len()
                    == 1,
                Err(ParseErrorView::MalformedHeader(line)) => {
                    &&& words(first).len() >= 2
                    &&& exists|j: int|
                        {
                            &&& 1 <= j < k
                            &&& line == without_cr(#[trigger] all[j])
                            &&& !line.contains(':')
                            &&& forall|i: int|
                                1 <= i < j ==> without_cr(#[trigger] all[i]).contains(':')
                        }
                },
                Ok(_) => !all_blank(first) && words(first).len() >= 2 && !bad,
            }
        }),
{
    let all = lines(raw);
    let first = without_cr(all[0]);
    lemma_head_end(raw, k);
    lemma_headers_in(all, k);
    let (lo, hi) = law_trimming_drops_only_outer_blanks(first);
    let at = law_words_are_stretches_between_blanks(first);
    if trimmed(first).len() == 0 {
        assert forall|i: int| 0 <= i < first.len() implies is_blank(#[trigger] first[i]) by {
            assert(i < lo || i >= hi);
        }
    } else {
        assert(!is_blank(first[lo]));
        if words(first).len() == 0 {
            assert(in_some_word(words(first), at, lo));
        }
    }
    if parsed(raw) is Ok {
        let found = headers_in(all, k)->Ok_0;
        assert forall|j: int| 1 <= j < k implies without_cr(#[trigger] all[j]).contains(':') by {
            assert(header_in(without_cr(all[j])) == Some(found[j - 1]));
            law_header_keeps_all_but_outer_blanks(without_cr(all[j]));
        }
    }
}

/// An accepted text says the request it is parsed to: the words of the first line are
/// method, path and version, the version defaulting to HTTP/1.1, and each line of the
/// head says one header, in order.
pub proof fn law_parsed_request_is_what_text_says(raw: Seq<char>, k: int)
    requires
        head_ends_at(raw, k),
        parsed(raw) is Ok,
    ensures
        ({
            let req = parsed(raw)->Ok_0;
            let parts = words(without_cr(lines(raw)[0]));
            &&& req.method.name() == parts[0]
            &&& req.method == method_named(parts[0])
            &&& req.path == parts[1]
            &&& req.version == (if parts.len() >= 3 {
                parts[2]
            } else {
                "HTTP/1.1"@
            })
            &&& req.headers.len() == k - 1
            &&& forall|j: int|
                0 <= j < k - 1 ==> is_header_line(
                    without_cr(lines(raw)[j + 1]),
                    #[trigger] req.headers[j],
                )
        }),
{
    let all = lines(raw);
    lemma_head_end(raw, k);
    lemma_headers_in(all, k);
    let req = parsed(raw)->Ok_0;
    assert forall|j: int| 0 <= j < k - 1 implies is_header_line(
        without_cr(all[j + 1]),
        #[trigger] req.headers[j],
    ) by {
        assert(header_in(without_cr(all[j + 1])) == Some(req.headers[j]));
        let gaps = law_header_keeps_all_but_outer_blanks(without_cr(all[j + 1]));
        assert(says_header(without_cr(all[j + 1]), req.headers[j], gaps));
    }
}

/// A new request has the method and path it was given, speaks HTTP/1.1, and has neither
/// headers nor body. A new response has the status it was given and its phrase.
pub proof fn law_new_messages_are_bare(method: MethodView, path: Seq<char>, status: u16)
    ensures
        ({
            let req = RequestView::bare(method, path);
            &&& req.method == method && req.path == path && req.version == "HTTP/1.1"@
            &&& req.headers.len() == 0 && req.body.len() == 0
        }),
        ({
            let resp = ResponseView::bare(status);
            &&& resp.status == status && resp.reason == phrase(status)
            &&& resp.headers.len() == 0 && resp.body.len() == 0
        }),
{
}

/// Each status that HTTP gives a phrase here has that phrase, and all others share one.
pub proof fn law_statuses_have_their_phrases(status: u16)
    ensures
        phrase(200) == "OK"@,
        phrase(201) == "Created"@,
        phrase(204) == "No Content"@,
        phrase(301) == "Moved Permanently"@,
        phrase(302) == "Found"@,
        phrase(304) == "Not Modified"@,
        phrase(400) == "Bad Request"@,
        phrase(401) == "Unauthorized"@,
        phrase(403) == "Forbidden"@,
        phrase(404) == "Not Found"@,
        phrase(429) == "Too Many Requests"@,
        phrase(500) == "Internal Server Error"@,
        phrase(502) == "Bad Gateway"@,
        phrase(503) == "Service Unavailable"@,
        phrase(504) == "Gateway Timeout"@,
        phrase(status) == "Unknown"@ || status == 200 || status == 201 || status == 204 || status
            == 301 || status == 302 || status == 304 || status == 400 || status == 401 || status
            == 403 || status == 404 || status == 429 || status == 500 || status == 502 || status
            == 503 || status == 504,
{
}

/// Headers are listed in order, name and value each as it is.
pub proof fn law_headers_are_listed_in_order(headers: Seq<(String, String)>, i: int)
    requires
        0 <= i < headers.len(),
    ensures
        header_list(headers).len() == headers.len(),
        header_list(headers)[i].0 == headers[i].0@,
        header_list(headers)[i].1 == headers[i].1@,
{
}

/// Of the methods with a name of their own, all but `POST` and `PATCH` can be repeated
/// without changing more than once. Of any other method nothing is known, so it does not
/// count as one.
pub proof fn law_known_methods_but_two_are_idempotent(name: Seq<char>)
    ensures
        method_named(name).is_idempotent() <==> name == "GET"@ || name == "HEAD"@ || name == "PUT"@
            || name == "DELETE"@ || name == "OPTIONS"@,
{
    law_methods_have_their_names(name);
}

/// A response is a success from 200 up to but not including 400, a server error from 500
/// on, and never both.
pub proof fn law_statuses_fall_into_classes(resp: ResponseView)
    ensures
        resp.is_success() <==> resp.status / 100 == 2 || resp.status / 100 == 3,
        resp.is_server_error() <==> resp.status / 100 >= 5,
        !(resp.is_success() && resp.is_server_error()),
{
}

/// The words for a parse error. A malformed header is quoted.
pub proof fn law_parse_errors_have_their_words(line: Seq<char>)
    ensures
        ParseErrorView::Empty.text() == "empty request"@,
        ParseErrorView::MalformedRequestLine.text() == "malformed request line"@,
        ParseErrorView::MalformedHeader(line).text() == "malformed header: "@ + line,
{
}

} // verus!
