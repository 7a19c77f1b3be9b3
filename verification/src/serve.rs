//! What the server of the interactive view reads out of a request and writes
//! in a response.
//!
//! This covers one page and a handful of JSON endpoints. It is deliberately
//! free of a web framework: the surface is a few routes, and a framework
//! would be a larger liability than the code it replaces.

use vstd::prelude::*;
use vstd::string::StrSliceExecFns;

use crate::api;
use crate::api::Sources;
use crate::bytes;
use crate::category;
use crate::category::{parse_selector, Category, CategorySet};
use crate::graph::Graph;
use crate::json;
use crate::json::Json;
use crate::model;
use crate::model::BodyView;
use crate::solve::{Edges, StateView};
use crate::text;

verus! {

/// Largest request head accepted, which is ample for a local browser.
pub const MAX_HEAD_BYTES: u64 = 16384;

/// Largest number of header lines accepted.
pub const MAX_HEADER_LINES: usize = 100;

/// Bodies below this size are sent as they are, because the header and the
/// deflate block cost more than the saving.
pub const COMPRESS_ABOVE: usize = 900;

/// Content type used for the page shell.
pub const HTML: &'static str = "text/html; charset=utf-8";

/// Content type used for every script the server returns.
pub const JS: &'static str = "application/javascript; charset=utf-8";

/// Content type used for every JSON response.
pub const JSON: &'static str = "application/json; charset=utf-8";

/// Content type used for every other response.
pub const PLAIN: &'static str = "text/plain; charset=utf-8";

/// The value of a hexadecimal digit.
pub open spec fn digit_value(b: u8) -> Option<int> {
    if 48 <= b <= 57 {
        Some(b - 48)
    } else if 97 <= b <= 102 {
        Some(b - 97 + 10)
    } else if 65 <= b <= 70 {
        Some(b - 65 + 10)
    } else {
        None
    }
}

/// Whether an escape stands at the front of some bytes.
pub open spec fn escaped(bytes: Seq<u8>) -> bool {
    bytes.len() > 2 && bytes[0] == 37 && digit_value(bytes[1]) is Some && digit_value(
        bytes[2],
    ) is Some
}

/// Bytes with their percent escapes and plus signs decoded.
pub open spec fn decoded(bytes: Seq<u8>) -> Seq<u8>
    decreases bytes.len(),
{
    if bytes.len() == 0 {
        Seq::empty()
    } else if bytes[0] == 43 {
        seq![32u8] + decoded(bytes.skip(1))
    } else if escaped(bytes) {
        seq![(digit_value(bytes[1])->0 * 16 + digit_value(bytes[2])->0) as u8] + decoded(
            bytes.skip(3),
        )
    } else {
        seq![bytes[0]] + decoded(bytes.skip(1))
    }
}

/// One hexadecimal digit of an escape, as its value.
///
/// Anything else is not an escape, so the `%` stands for itself.
fn nibble(bytes: &Vec<u8>, at: usize) -> (r: Option<u8>)
    ensures
        match r {
            Some(n) => at < bytes@.len() && digit_value(bytes@[at as int]) == Some(n as int) && n
                < 16,
            None => at >= bytes@.len() || digit_value(bytes@[at as int]) is None,
        },
{
    if at >= bytes.len() {
        return None;
    }
    let digit = bytes[at];
    if 48 <= digit && digit <= 57 {
        Some(digit - 48)
    } else if 97 <= digit && digit <= 102 {
        Some(digit - 97 + 10)
    } else if 65 <= digit && digit <= 70 {
        Some(digit - 65 + 10)
    } else {
        None
    }
}

/// The two hexadecimal digits of the percent escape at an index.
///
/// Read from the bytes rather than by slicing the text: the two characters
/// after a `%` need not begin a character, and slicing a string through one
/// panics.
fn escape(bytes: &Vec<u8>, at: usize) -> (r: Option<(u8, u8)>)
    requires
        at < bytes@.len(),
    ensures
        bytes@[at as int] == 37 ==> match r {
            Some((hi, lo)) => escaped(bytes@.skip(at as int)) && digit_value(
                bytes@[at + 1],
            ) == Some(hi as int) && digit_value(bytes@[at + 2]) == Some(lo as int) && hi < 16 && lo
                < 16 && at + 2 < bytes@.len(),
            None => !escaped(bytes@.skip(at as int)),
        },
{
    let ghost rest = bytes@.skip(at as int);
    let left = bytes.len() - at;
    if left < 3 {
        return None;
    }
    assert(rest[0] == bytes@[at as int] && rest[1] == bytes@[at + 1] && rest[2] == bytes@[at + 2]);
    match (nibble(bytes, at + 1), nibble(bytes, at + 2)) {
        (Some(hi), Some(lo)) => Some((hi, lo)),
        _ => None,
    }
}

/// Decodes percent escapes and `+` in the bytes of a query value.
pub fn decode(bytes: &Vec<u8>) -> (r: Vec<u8>)
    ensures
        r@ == decoded(bytes@),
{
    let mut out: Vec<u8> = Vec::new();
    let mut i: usize = 0;
    assert(bytes@.skip(0) =~= bytes@);
    // Each pass consumes at least one byte, so this ends within the input.
    while i < bytes.len()
        invariant
            i <= bytes@.len(),
            out@ + decoded(bytes@.skip(i as int)) == decoded(bytes@),
        decreases bytes@.len() - i,
    {
        let ghost rest = bytes@.skip(i as int);
        let ghost was = out@;
        assert(rest[0] == bytes@[i as int]);
        let byte = bytes[i];
        proof {
            assert(rest.skip(1) =~= bytes@.skip(i + 1));
        }
        if byte == 43 {
            out.push(32);
            i += 1;
            assert(was + (seq![32u8] + decoded(bytes@.skip(i as int))) =~= out@ + decoded(
                bytes@.skip(i as int),
            ));
        } else {
            let found = if byte == 37 {
                escape(bytes, i)
            } else {
                None
            };
            match found {
                Some((hi, lo)) => {
                    let value: u8 = hi * 16 + lo;
                    proof {
                        assert(rest[1] == bytes@[i + 1] && rest[2] == bytes@[i + 2]);
                        assert(rest.skip(3) =~= bytes@.skip(i + 3));
                    }
                    out.push(value);
                    i += 3;
                    assert(was + (seq![value] + decoded(bytes@.skip(i as int))) =~= out@ + decoded(
                        bytes@.skip(i as int),
                    ));
                },
                None => {
                    out.push(byte);
                    i += 1;
                    assert(was + (seq![byte] + decoded(bytes@.skip(i as int))) =~= out@ + decoded(
                        bytes@.skip(i as int),
                    ));
                },
            }
        }
    }
    assert(out@ + decoded(bytes@.skip(i as int)) =~= out@);
    out
}

/// Bytes without a percent sign or a plus sign are decoded as they stand.
pub proof fn plain_bytes_are_kept(bytes: Seq<u8>)
    requires
        forall|i: int| 0 <= i < bytes.len() ==> #[trigger] bytes[i] != 37 && bytes[i] != 43,
    ensures
        decoded(bytes) == bytes,
    decreases bytes.len(),
{
    if bytes.len() > 0 {
        let rest = bytes.skip(1);
        assert forall|i: int| 0 <= i < rest.len() implies #[trigger] rest[i] != 37 && rest[i]
            != 43 by {
            assert(rest[i] == bytes[i + 1]);
        }
        plain_bytes_are_kept(rest);
        assert(seq![bytes[0]] + rest =~= bytes);
    } else {
        assert(bytes =~= Seq::empty());
    }
}

/// A query value with its escapes decoded.
pub open spec fn unescaped(value: Seq<char>) -> Seq<char> {
    bytes::lossy_text(decoded(vstd::utf8::encode_utf8(value)))
}

/// Decodes percent escapes and `+` in a query value.
pub fn percent_decode(value: &str) -> (r: String)
    ensures
        r@ == unescaped(value@),
        vstd::utf8::valid_utf8(decoded(vstd::utf8::encode_utf8(value@))) ==> r@
            == vstd::utf8::decode_utf8(decoded(vstd::utf8::encode_utf8(value@))),
{
    bytes::lossy(&decode(&value.as_bytes_vec()))
}

/// What stands before the first of a separator, and what stands after it.
pub open spec fn halves(s: Seq<char>, sep: char) -> (Seq<char>, Seq<char>) {
    let front = text::head(s, sep);
    (
        front,
        if front.len() < s.len() {
            s.skip(front.len() as int + 1)
        } else {
            Seq::empty()
        },
    )
}

proof fn head_is_short(s: Seq<char>, c: char)
    ensures
        text::head(s, c).len() <= s.len(),
    decreases s.len(),
{
    if s.len() > 0 {
        head_is_short(s.skip(1), c);
    }
}

/// Splits on the first occurrence of a separator.
pub fn split_once_or(s: &str, sep: char) -> (r: (String, String))
    ensures
        (r.0@, r.1@) == halves(s@, sep),
{
    let front = text::head_of(s, sep);
    let v = text::chars_of(s);
    let n = text::chars_of(front.as_str()).len();
    proof {
        head_is_short(s@, sep);
    }
    if n < v.len() {
        let rest = text::text_of(v.as_slice(), n + 1, v.len());
        assert(rest@ =~= s@.skip(n + 1));
        (front, rest)
    } else {
        (front, String::new())
    }
}

/// The value of the first pair under a name, from one on.
pub open spec fn paired(pairs: Seq<Seq<char>>, name: Seq<char>, from: nat) -> Option<Seq<char>>
    decreases pairs.len() - from,
{
    if from >= pairs.len() {
        None
    } else if halves(pairs[from as int], '=').0 == name {
        Some(halves(pairs[from as int], '=').1)
    } else {
        paired(pairs, name, from + 1)
    }
}

/// The value of a parameter in a query string, as it is written.
pub open spec fn written(query: Seq<char>, name: Seq<char>) -> Option<Seq<char>> {
    paired(text::pieces(query, '&'), name, 0)
}

/// One parameter of a query string.
pub open spec fn parameter(query: Seq<char>, name: Seq<char>) -> Option<Seq<char>> {
    match written(query, name) {
        Some(value) => Some(unescaped(value)),
        None => None,
    }
}

/// Reads one parameter out of a query string, as it is written.
pub fn raw_param(query: &str, name: &str) -> (r: Option<String>)
    ensures
        model::text_view(r) == written(query@, name@),
{
    let pairs = text::split(query, '&');
    let ghost all = text::pieces(query@, '&');
    let mut i: usize = 0;
    while i < pairs.len()
        invariant
            i <= pairs@.len(),
            all == text::texts(pairs@),
            all == text::pieces(query@, '&'),
            paired(all, name@, 0) == paired(all, name@, i as nat),
        decreases pairs@.len() - i,
    {
        assert(all[i as int] == pairs@[i as int]@);
        let (key, value) = split_once_or(pairs[i].as_str(), '=');
        if text::same(key.as_str(), name) {
            return Some(value);
        }
        i += 1;
    }
    None
}

/// Reads one parameter out of a query string.
pub fn param(query: &str, name: &str) -> (r: Option<String>)
    ensures
        model::text_view(r) == parameter(query@, name@),
{
    match raw_param(query, name) {
        Some(value) => Some(percent_decode(value.as_str())),
        None => None,
    }
}

/// What the first `n` characters of a text read as, as a number, or why they
/// do not.
pub open spec fn counted(s: Seq<char>, n: nat) -> Result<nat, Seq<char>>
    decreases n,
{
    if n == 0 {
        Ok(0)
    } else {
        match counted(s, (n - 1) as nat) {
            Err(fault) => Err(fault),
            Ok(before) => if !text::is_digit(s[n - 1]) {
                Err("invalid digit found in string"@)
            } else {
                let now = before * 10 + (s[n - 1] as nat - '0' as nat) as nat;
                if now > usize::MAX {
                    Err("number too large to fit in target type"@)
                } else {
                    Ok(now)
                }
            },
        }
    }
}

/// The number a text spells, which may start with a plus sign, or why it
/// spells none.
pub open spec fn index_in(s: Seq<char>) -> Result<nat, Seq<char>> {
    if s.len() == 0 {
        Err("cannot parse integer from empty string"@)
    } else if s.len() > 1 && s[0] == '+' {
        counted(s.skip(1), (s.len() - 1) as nat)
    } else {
        counted(s, s.len())
    }
}

proof fn faults_stay(s: Seq<char>, n: nat, m: nat)
    requires
        n <= m,
        counted(s, n) is Err,
    ensures
        counted(s, m) == counted(s, n),
    decreases m - n,
{
    if n < m {
        faults_stay(s, n, (m - 1) as nat);
    }
}

fn count(v: &Vec<char>, from: usize) -> (r: Result<usize, &'static str>)
    requires
        from <= v@.len(),
    ensures
        match r {
            Ok(n) => counted(v@.skip(from as int), (v@.len() - from) as nat) == Ok::<
                nat,
                Seq<char>,
            >(n as nat),
            Err(fault) => counted(v@.skip(from as int), (v@.len() - from) as nat) == Err::<
                nat,
                Seq<char>,
            >(fault@),
        },
{
    let ghost s = v@.skip(from as int);
    let mut value: usize = 0;
    let mut i: usize = from;
    while i < v.len()
        invariant
            from <= i <= v@.len(),
            s == v@.skip(from as int),
            counted(s, (i - from) as nat) == Ok::<nat, Seq<char>>(value as nat),
        decreases v@.len() - i,
    {
        let c = v[i];
        assert(s[i - from] == c);
        if !('0' <= c && c <= '9') {
            proof {
                faults_stay(s, (i + 1 - from) as nat, (v@.len() - from) as nat);
            }
            return Err("invalid digit found in string");
        }
        let digit: usize = (c as u32 - 48) as usize;
        if value > usize::MAX / 10 || value * 10 > usize::MAX - digit {
            proof {
                faults_stay(s, (i + 1 - from) as nat, (v@.len() - from) as nat);
            }
            return Err("number too large to fit in target type");
        }
        value = value * 10 + digit;
        i += 1;
    }
    Ok(value)
}

/// What is said of an index that does not read as a number.
pub open spec fn misread(s: Seq<char>, fault: Seq<char>) -> Seq<char> {
    "`"@ + s + "` is not a function index: "@ + fault
}

/// The function an index asked for names.
pub open spec fn indexed(asked: Option<Seq<char>>) -> Result<nat, Seq<char>> {
    match asked {
        None => Ok(0),
        Some(s) => match index_in(s) {
            Ok(n) => Ok(n),
            Err(fault) => Err(misread(s, fault)),
        },
    }
}

/// The function a request asks about.
///
/// An index that does not read as a number is a mistake worth naming. Taking
/// it for the first function instead would explain a function nobody asked
/// about, which reads as an answer rather than as the error it is.
pub fn node_of(asked: &Option<String>) -> (r: Result<usize, String>)
    ensures
        match r {
            Ok(n) => indexed(model::text_view(*asked)) == Ok::<nat, Seq<char>>(n as nat),
            Err(message) => indexed(model::text_view(*asked)) == Err::<nat, Seq<char>>(message@),
        },
{
    let asked = match asked {
        Some(asked) => asked,
        None => {
            return Ok(0);
        },
    };
    let v = text::chars_of(asked.as_str());
    assert(v@.skip(0) =~= v@);
    let read = if v.len() == 0 {
        Err("cannot parse integer from empty string")
    } else if v.len() > 1 && v[0] == '+' {
        count(&v, 1)
    } else {
        count(&v, 0)
    };
    match read {
        Ok(n) => Ok(n),
        Err(fault) => {
            let mut message = "`".to_owned();
            message.append(asked.as_str());
            message.append("` is not a function index: ");
            message.append(fault);
            Err(message)
        },
    }
}

/// The suppression policy a request asks for.
pub open spec fn policy_of(asked: Option<Seq<char>>) -> Set<Category> {
    match asked {
        Some(s) => match category::selection(s) {
            Ok(set) => set,
            Err(_) => Set::empty(),
        },
        None => Set::empty(),
    }
}

/// Reads the suppression policy a request asks for.
pub fn suppressed_from(asked: &Option<String>) -> (r: CategorySet)
    ensures
        r@ == policy_of(model::text_view(*asked)),
{
    match asked {
        Some(s) => match parse_selector(s.as_str()) {
            Ok(set) => set,
            Err(_) => CategorySet::empty(),
        },
        None => CategorySet::empty(),
    }
}

/// One parsed request.
#[derive(Debug)]
pub struct Request {
    pub target: String,
    /// Whether the client accepts compressed replies.
    pub gzip: bool,
}

/// Whether one of the first `n` encodings a client offers is the one the
/// server has.
pub open spec fn offers(tokens: Seq<Seq<char>>, n: int) -> bool {
    exists|i: int|
        0 <= i < n && text::trimmed(text::head(#[trigger] tokens[i], ';')) == "gzip"@
}

/// What a header says of the encodings a client accepts.
pub open spec fn encodings(header: Seq<char>) -> Option<bool> {
    let lower = header.map_values(|c: char| text::lowered(c));
    if text::occurs_at(lower, "accept-encoding:"@, 0) {
        let tokens = text::pieces(lower.skip("accept-encoding:"@.len() as int), ',');
        Some(offers(tokens, tokens.len() as int))
    } else {
        None
    }
}

/// Whether a client accepts compressed replies, by the first `n` headers.
pub open spec fn accepts(headers: Seq<Seq<char>>, n: nat) -> bool
    decreases n,
{
    if n == 0 {
        false
    } else {
        match encodings(headers[n - 1]) {
            Some(gzip) => gzip,
            None => accepts(headers, (n - 1) as nat),
        }
    }
}

/// How many of some headers are read, from one on.
pub open spec fn read_up_to(headers: Seq<Seq<char>>, from: nat) -> nat
    decreases headers.len() - from,
{
    if from >= headers.len() || from >= MAX_HEADER_LINES || text::trimmed(
        headers[from as int],
    ).len() == 0 {
        from
    } else {
        read_up_to(headers, from + 1)
    }
}

/// Whether a request line asks for something the server can answer.
pub open spec fn is_asked(line: Seq<char>) -> bool {
    text::first_word(line) == "GET"@ && text::first_word(text::past_word(line)).len() > 0
}

fn encodings_of(header: &str) -> (r: Option<bool>)
    ensures
        r == encodings(header@),
{
    let lower = text::lower(header);
    if !text::starts_with(lower.as_str(), "accept-encoding:") {
        return None;
    }
    let v = text::chars_of(lower.as_str());
    let skip = text::chars_of("accept-encoding:").len();
    let value = text::text_of(v.as_slice(), skip, v.len());
    assert(value@ =~= lower@.skip("accept-encoding:"@.len() as int));
    let tokens = text::split(value.as_str(), ',');
    let ghost all = text::pieces(value@, ',');
    let mut i: usize = 0;
    while i < tokens.len()
        invariant
            i <= tokens@.len(),
            all == text::texts(tokens@),
            encodings(header@) == Some(offers(all, all.len() as int)),
            !offers(all, i as int),
        decreases tokens@.len() - i,
    {
        assert(all[i as int] == tokens@[i as int]@);
        let name = text::trim(text::head_of(tokens[i].as_str(), ';').as_str());
        if text::same(name.as_str(), "gzip") {
            assert(offers(all, all.len() as int));
            return Some(true);
        }
        i += 1;
    }
    Some(false)
}

/// Reads the request line and the one header the server acts on.
///
/// The headers end at the first blank line, or where there are more of them
/// than the server reads.
pub fn read_request(line: &str, headers: &Vec<String>) -> (r: Option<Request>)
    ensures
        match r {
            Some(request) => is_asked(line@) && request.target@ == text::first_word(
                text::past_word(line@),
            ) && request.gzip == accepts(
                text::texts(headers@),
                read_up_to(text::texts(headers@), 0),
            ),
            None => !is_asked(line@),
        },
{
    let method = text::leading_word(line);
    let target = text::leading_word(text::after_word(line).as_str());
    let v = text::chars_of(target.as_str());
    if !text::same(method.as_str(), "GET") || v.len() == 0 {
        return None;
    }
    let ghost all = text::texts(headers@);
    let mut gzip = false;
    let mut i: usize = 0;
    while i < headers.len() && i < MAX_HEADER_LINES && text::chars_of(
        text::trim(headers[i].as_str()).as_str(),
    ).len() > 0
        invariant
            i <= headers@.len(),
            all == text::texts(headers@),
            gzip == accepts(all, i as nat),
            read_up_to(all, 0) == read_up_to(all, i as nat),
        decreases headers@.len() - i,
    {
        assert(all[i as int] == headers@[i as int]@);
        if let Some(found) = encodings_of(headers[i].as_str()) {
            gzip = found;
        }
        i += 1;
    }
    proof {
        if i < headers@.len() {
            assert(all[i as int] == headers@[i as int]@);
        }
    }
    Some(Request { target, gzip })
}

/// A file the server hands out as it is.
#[derive(Debug, Clone, Copy, PartialEq, Eq, Structural)]
pub enum Asset {
    /// The page shell.
    Index,
    /// The view itself.
    App,
    D3,
    Vue,
}

impl Asset {
    /// The content type a file is sent with.
    pub fn content_type(self) -> (r: &'static str)
        ensures
            r@ == (if self is Index {
                HTML@
            } else {
                JS@
            }),
    {
        match self {
            Asset::Index => HTML,
            _ => JS,
        }
    }
}

/// What a path asks for.
#[derive(Debug, Clone, Copy, PartialEq, Eq, Structural)]
pub enum Route {
    File(Asset),
    Graph,
    Solve,
    Flame,
    Why,
    Source,
    Missing,
}

/// What a path asks for.
pub open spec fn spec_route(path: Seq<char>) -> Route {
    if path == "/"@ || path == "/index.html"@ {
        Route::File(Asset::Index)
    } else if path == "/app.js"@ {
        Route::File(Asset::App)
    } else if path == "/d3.min.js"@ {
        Route::File(Asset::D3)
    } else if path == "/vue.global.prod.js"@ {
        Route::File(Asset::Vue)
    } else if path == "/api/graph"@ {
        Route::Graph
    } else if path == "/api/solve"@ {
        Route::Solve
    } else if path == "/api/flame"@ {
        Route::Flame
    } else if path == "/api/why"@ {
        Route::Why
    } else if path == "/api/source"@ {
        Route::Source
    } else {
        Route::Missing
    }
}

/// Chooses what answers one request path.
pub fn route(path: &str) -> (r: Route)
    ensures
        r == spec_route(path@),
{
    if text::same(path, "/") || text::same(path, "/index.html") {
        Route::File(Asset::Index)
    } else if text::same(path, "/app.js") {
        Route::File(Asset::App)
    } else if text::same(path, "/d3.min.js") {
        Route::File(Asset::D3)
    } else if text::same(path, "/vue.global.prod.js") {
        Route::File(Asset::Vue)
    } else if text::same(path, "/api/graph") {
        Route::Graph
    } else if text::same(path, "/api/solve") {
        Route::Solve
    } else if text::same(path, "/api/flame") {
        Route::Flame
    } else if text::same(path, "/api/why") {
        Route::Why
    } else if text::same(path, "/api/source") {
        Route::Source
    } else {
        Route::Missing
    }
}

/// What a request asks, with its parameters read.
#[derive(Debug)]
pub struct Asked {
    pub route: Route,
    pub node: Option<String>,
    pub category: Option<String>,
    pub suppress: Option<String>,
    /// Whether runs of single calls are folded.
    pub fold: bool,
    pub file: Option<String>,
}

/// A parameter, or nothing at all where it is not given.
pub open spec fn or_empty(s: Option<String>) -> Seq<char> {
    match s {
        Some(s) => s@,
        None => ""@,
    }
}

/// Whether a request is read out of a path and a query.
pub open spec fn reads_as(asked: Asked, path: Seq<char>, query: Seq<char>) -> bool {
    &&& asked.route == spec_route(path)
    &&& model::text_view(asked.node) == parameter(query, "node"@)
    &&& model::text_view(asked.category) == parameter(query, "category"@)
    &&& model::text_view(asked.suppress) == parameter(query, "suppress"@)
    &&& asked.fold == (parameter(query, "expand"@) is None)
    &&& model::text_view(asked.file) == parameter(query, "file"@)
}

/// Reads what a request target asks.
pub fn ask(target: &str) -> (r: Asked)
    ensures
        reads_as(r, halves(target@, '?').0, halves(target@, '?').1),
{
    let (path, query) = split_once_or(target, '?');
    let q = query.as_str();
    Asked {
        route: route(path.as_str()),
        node: param(q, "node"),
        category: param(q, "category"),
        suppress: param(q, "suppress"),
        fold: param(q, "expand").is_none(),
        file: param(q, "file"),
    }
}

/// What is sent back.
#[derive(Debug)]
pub enum Answer {
    /// A file, as it is.
    File(Asset),
    /// A document.
    Doc(serde_json::Value),
    /// What went wrong.
    Fault(String),
    /// A source file, once it is read.
    Source(String),
    /// Nothing goes by the path.
    Missing,
}

/// Whether an answer is the one to what was asked of a graph.
pub open spec fn answers(r: Answer, bodies: Seq<BodyView>, shape: Json, edges: Edges, asked: Asked) -> bool {
    let suppressed = policy_of(model::text_view(asked.suppress));
    match asked.route {
        Route::File(asset) => r == Answer::File(asset),
        Route::Graph => r matches Answer::Doc(doc) && json::meaning(doc) == shape,
        Route::Solve => r matches Answer::Doc(doc) && exists|
            states: Seq<StateView>,
            bare: Seq<StateView>,
            others: Seq<Seq<StateView>>,
        | #[trigger]
            api::is_solve_doc(
                json::meaning(doc),
                bodies,
                suppressed,
                edges,
                states,
                bare,
                others,
            ),
        Route::Flame => r matches Answer::Doc(doc) && exists|rows: Seq<api::RowView>| #[trigger]
            api::is_flame_doc(json::meaning(doc), bodies, suppressed, edges, asked.fold, rows),
        Route::Why => match indexed(model::text_view(asked.node)) {
            Err(message) => r matches Answer::Fault(said) && said@ == message,
            Ok(node) => match r {
                Answer::Doc(doc) => api::answers_why(
                    Ok(doc),
                    bodies,
                    node as usize,
                    or_empty(asked.category),
                    suppressed,
                    edges,
                ),
                Answer::Fault(message) => api::answers_why(
                    Err(message),
                    bodies,
                    node as usize,
                    or_empty(asked.category),
                    suppressed,
                    edges,
                ),
                _ => false,
            },
        },
        Route::Source => r matches Answer::Source(file) && file@ == or_empty(asked.file),
        Route::Missing => r is Missing,
    }
}

fn given(s: &Option<String>) -> (r: String)
    ensures
        r@ == or_empty(*s),
{
    match s {
        Some(s) => s.clone(),
        None => "".to_owned(),
    }
}

/// Answers what was asked of a graph.
pub fn answer(g: &Graph, edges: Edges, asked: &Asked) -> (r: Answer)
    ensures
        answers(r, g@.bodies, api::graph_doc(g@.bodies, g@.config), edges, *asked),
{
    let suppressed = suppressed_from(&asked.suppress);
    match asked.route {
        Route::File(asset) => Answer::File(asset),
        Route::Graph => Answer::Doc(api::graph(g)),
        Route::Solve => match api::solve(g, suppressed, edges) {
            Ok(doc) => Answer::Doc(doc),
            Err(message) => Answer::Fault(message),
        },
        Route::Flame => match api::flame(g, suppressed, edges, asked.fold) {
            Ok(doc) => Answer::Doc(doc),
            Err(message) => Answer::Fault(message),
        },
        Route::Why => match node_of(&asked.node) {
            Err(message) => Answer::Fault(message),
            Ok(node) => match api::why(
                g,
                node,
                given(&asked.category).as_str(),
                suppressed,
                edges,
            ) {
                Ok(doc) => Answer::Doc(doc),
                Err(message) => Answer::Fault(message),
            },
        },
        Route::Source => Answer::Source(given(&asked.file)),
        Route::Missing => Answer::Missing,
    }
}

/// A response before it is written.
#[derive(Debug)]
pub struct Reply {
    pub status: u16,
    pub content_type: &'static str,
    pub body: Vec<u8>,
}

/// An error as a document, so the view can show it rather than hanging.
pub open spec fn fault_doc(message: Seq<char>) -> Json {
    json::empty_object().with("error"@, Json::Str(message))
}

/// The reply that carries a document.
pub fn document(doc: &serde_json::Value) -> (r: Reply)
    ensures
        r.status == 200,
        r.content_type@ == JSON@,
        r.body@ == json::compact(json::meaning(*doc)),
{
    let body = match json::pack(doc) {
        Ok(body) => body,
        Err(_) => Vec::new(),
    };
    Reply { status: 200, content_type: JSON, body }
}

/// The reply that carries an error.
pub fn failure(message: &str) -> (r: Reply)
    ensures
        r.status == 400,
        r.content_type@ == JSON@,
        r.body@ == json::compact(fault_doc(message@)),
{
    let mut doc = json::object();
    json::put(&mut doc, "error", json::words(message));
    let body = match json::pack(&doc) {
        Ok(body) => body,
        Err(_) => Vec::new(),
    };
    Reply { status: 400, content_type: JSON, body }
}

/// A plain text reply.
pub fn plain(status: u16, body: &str) -> (r: Reply)
    ensures
        r.status == status,
        r.content_type@ == PLAIN@,
        r.body@ == vstd::utf8::encode_utf8(body@),
{
    Reply { status, content_type: PLAIN, body: body.as_bytes_vec() }
}

/// The reply to a request for a source file, out of what was read of it.
pub fn source_reply(allowed: &Sources, file: &str, read: Result<Vec<u8>, String>) -> (r: Reply)
    ensures
        r.content_type@ == JSON@,
        r.status == 200 <==> allowed@.contains(file@) && read is Ok && read->Ok_0@.len()
            <= api::MAX_SOURCE_BYTES && vstd::utf8::valid_utf8(read->Ok_0@),
        match api::denied(allowed@.contains(file@), file@, read) {
            None => r.body@ == json::compact(
                api::source_doc(file@, vstd::utf8::decode_utf8(read->Ok_0@)),
            ),
            Some(message) => r.status == 400 && r.body@ == json::compact(fault_doc(message)),
        },
{
    match api::source(allowed, file, read) {
        Ok(doc) => document(&doc),
        Err(message) => failure(message.as_str()),
    }
}

/// The status line and the headers of a response.
pub open spec fn spec_head(status: u16, content_type: Seq<char>, length: nat, compressed: bool) -> Seq<
    char,
> {
    "HTTP/1.1 "@ + text::decimal(status as nat) + " "@ + if status == 200 {
        "OK"@
    } else {
        "Error"@
    } + "\r\nContent-Type: "@ + content_type + "\r\nContent-Length: "@ + text::decimal(length)
        + "\r\n"@ + if compressed {
        "Content-Encoding: gzip\r\n"@
    } else {
        ""@
    } + "Vary: Accept-Encoding\r\nCache-Control: no-store\r\nConnection: close\r\n\r\n"@
}

fn head(status: u16, content_type: &str, length: usize, compressed: bool) -> (r: String)
    ensures
        r@ == spec_head(status, content_type@, length as nat, compressed),
{
    let mut out = "HTTP/1.1 ".to_owned();
    out.append(text::number(status as u64).as_str());
    out.append(" ");
    out.append(
        if status == 200 {
            "OK"
        } else {
            "Error"
        },
    );
    out.append("\r\nContent-Type: ");
    out.append(content_type);
    out.append("\r\nContent-Length: ");
    out.append(text::number(length as u64).as_str());
    out.append("\r\n");
    out.append(
        if compressed {
            "Content-Encoding: gzip\r\n"
        } else {
            ""
        },
    );
    out.append("Vary: Accept-Encoding\r\nCache-Control: no-store\r\nConnection: close\r\n\r\n");
    out
}

/// A response as it is written: the head, then the payload.
#[derive(Debug)]
pub struct Response {
    pub head: String,
    pub payload: Vec<u8>,
}

impl Response {
    /// Whether a response carries a reply, with its body compressed where that
    /// makes it smaller.
    pub open spec fn carries(self, status: u16, content_type: Seq<char>, body: Seq<u8>, packed: Option<Seq<u8>>) -> bool {
        let used = packed is Some && packed->0.len() < body.len();
        &&& self.payload@ == (if used {
            packed->0
        } else {
            body
        })
        &&& self.head@ == spec_head(status, content_type, self.payload@.len(), used)
    }
}

/// Makes the response to a reply, given what its body was compressed to, if
/// it was compressed.
pub fn respond_with(reply: Reply, packed: Option<Vec<u8>>) -> (r: Response)
    ensures
        r.carries(
            reply.status,
            reply.content_type@,
            reply.body@,
            match packed {
                Some(bytes) => Some(bytes@),
                None => None,
            },
        ),
{
    let Reply { status, content_type, body } = reply;
    if let Some(bytes) = packed {
        if bytes.len() < body.len() {
            return Response {
                head: head(status, content_type, bytes.len(), true),
                payload: bytes,
            };
        }
    }
    Response { head: head(status, content_type, body.len(), false), payload: body }
}

/// Whether compressing a body is worth doing and the client advertised
/// support.
pub open spec fn worth_packing(gzip: bool, length: nat) -> bool {
    gzip && length >= COMPRESS_ABOVE
}

/// Makes the response to a reply, compressing the body when that is worth
/// doing and the client advertised support.
///
/// # Errors
///
/// Returns an error if the body could not be compressed.
pub fn respond(gzip: bool, reply: Reply) -> (r: Result<Response, String>)
    ensures
        r is Err <==> worth_packing(gzip, reply.body@.len()) && bytes::gzipped(reply.body@) is None,
        r matches Ok(response) ==> response.carries(
            reply.status,
            reply.content_type@,
            reply.body@,
            if worth_packing(gzip, reply.body@.len()) {
                bytes::gzipped(reply.body@)
            } else {
                None
            },
        ),
{
    if !gzip || reply.body.len() < COMPRESS_ABOVE {
        return Ok(respond_with(reply, None));
    }
    match bytes::gzip(&reply.body) {
        Ok(packed) => Ok(respond_with(reply, Some(packed))),
        Err(message) => Err(message),
    }
}

/// Compresses a file the server hands out, once. Nothing at all stands for
/// what could not be compressed.
pub fn pack_asset(plain: &Vec<u8>) -> (r: Vec<u8>)
    ensures
        r@ == (match bytes::gzipped(plain@) {
            Some(packed) => packed,
            None => Seq::empty(),
        }),
{
    match bytes::gzip(plain) {
        Ok(packed) => packed,
        Err(_) => Vec::new(),
    }
}

/// Makes the response that hands out a file whose compressed form is already
/// known.
///
/// No packed bytes means compression failed. An empty body is not
/// what the asset says, and it would win the comparison, so
/// the plain bytes have to be what goes out.
pub fn respond_cached(gzip: bool, asset: Asset, plain: &Vec<u8>, packed: &Vec<u8>) -> (r: Response)
    ensures
        r.carries(
            200,
            (if asset is Index {
                HTML@
            } else {
                JS@
            }),
            plain@,
            if gzip && packed@.len() > 0 {
                Some(packed@)
            } else {
                None
            },
        ),
{
    let used = gzip && packed.len() > 0 && packed.len() < plain.len();
    let payload = if used {
        packed.clone()
    } else {
        plain.clone()
    };
    Response { head: head(200, asset.content_type(), payload.len(), used), payload }
}

/// The reply an answer is sent as, where it needs no file.
pub fn reply(answer: &Answer) -> (r: Option<Reply>)
    ensures
        match *answer {
            Answer::Doc(doc) => r is Some && r->0.status == 200 && r->0.content_type@ == JSON@
                && r->0.body@ == json::compact(json::meaning(doc)),
            Answer::Fault(message) => r is Some && r->0.status == 400 && r->0.content_type@
                == JSON@ && r->0.body@ == json::compact(fault_doc(message@)),
            Answer::Missing => r is Some && r->0.status == 404 && r->0.content_type@ == PLAIN@
                && r->0.body@ == vstd::utf8::encode_utf8("not found"@),
            Answer::File(_) => r is None,
            Answer::Source(_) => r is None,
        },
{
    match answer {
        Answer::Doc(doc) => Some(document(doc)),
        Answer::Fault(message) => Some(failure(message.as_str())),
        Answer::Missing => Some(plain(404, "not found")),
        Answer::File(_) => None,
        Answer::Source(_) => None,
    }
}

/// The port a listen argument names on its own.
pub open spec fn bare_port(listen: Seq<char>) -> Option<nat> {
    match index_in(listen) {
        Ok(n) => if n <= 65535 {
            Some(n)
        } else {
            None
        },
        Err(_) => None,
    }
}

/// The port a listen argument names on its own, which binds the loopback
/// interface only.
pub fn loopback_port(listen: &str) -> (r: Option<u16>)
    ensures
        bare_port(listen@) == (match r {
            Some(port) => Some(port as nat),
            None => None,
        }),
{
    match node_of(&Some(listen.to_owned())) {
        Ok(n) => if n <= 65535 {
            Some(n as u16)
        } else {
            None
        },
        Err(_) => None,
    }
}

/// The digit a number below sixteen is written with in an escape, in capitals
/// or not.
pub open spec fn hex_digit(n: int, capital: bool) -> u8 {
    if n < 10 {
        (48 + n) as u8
    } else if capital {
        (65 + n - 10) as u8
    } else {
        (97 + n - 10) as u8
    }
}

/// A byte that is escaped, in digits of either kind, is read as that byte, and
/// a plus sign as a space, whatever follows.
pub proof fn an_escape_is_read_as_its_byte(b: u8, high: bool, low: bool, rest: Seq<u8>)
    ensures
        decoded(
            seq![37u8, hex_digit(b as int / 16, high), hex_digit(b as int % 16, low)] + rest,
        ) == seq![b] + decoded(rest),
        decoded(seq![43u8] + rest) == seq![32u8] + decoded(rest),
{
    let whole = seq![37u8, hex_digit(b as int / 16, high), hex_digit(b as int % 16, low)] + rest;
    assert(whole.skip(3) =~= rest);
    assert((seq![43u8] + rest).skip(1) =~= rest);
    assert(whole[0] == 37 && whole[1] == hex_digit(b as int / 16, high));
    assert(whole[2] == hex_digit(b as int % 16, low));
    assert(digit_value(whole[1]) == Some(b as int / 16));
    assert(digit_value(whole[2]) == Some(b as int % 16));
}

proof fn one_piece(s: Seq<char>, sep: char)
    requires
        !s.contains(sep),
    ensures
        text::pieces(s, sep) == seq![s],
    decreases s.len(),
{
    if s.len() > 0 {
        let front = s.drop_last();
        assert forall|i: int| 0 <= i < front.len() implies front[i] != sep by {
            assert(s.contains(s[i]));
        }
        assert(s.contains(s.last()));
        one_piece(front, sep);
        let before = text::pieces(front, sep);
        assert(front.push(s.last()) =~= s);
        assert(before.drop_last().push(before.last().push(s.last())) =~= seq![s]);
    } else {
        assert(s =~= Seq::<char>::empty());
    }
}

proof fn pieces_are_some(s: Seq<char>, sep: char)
    ensures
        text::pieces(s, sep).len() > 0,
    decreases s.len(),
{
    if s.len() > 0 {
        pieces_are_some(s.drop_last(), sep);
    }
}

proof fn pieces_part(a: Seq<char>, b: Seq<char>, sep: char)
    ensures
        text::pieces(a + seq![sep] + b, sep) == text::pieces(a, sep) + text::pieces(b, sep),
    decreases b.len(),
{
    let whole = a + seq![sep] + b;
    let first = text::pieces(a, sep);
    if b.len() == 0 {
        assert(whole.drop_last() =~= a);
        assert(whole.last() == sep);
        assert(first.push(Seq::empty()) =~= first + text::pieces(b, sep));
    } else {
        let front = b.drop_last();
        pieces_part(a, front, sep);
        pieces_are_some(front, sep);
        assert(whole.drop_last() =~= a + seq![sep] + front);
        assert(whole.last() == b.last());
        let before = text::pieces(front, sep);
        if b.last() == sep {
            assert((first + before).push(Seq::empty()) =~= first + before.push(Seq::empty()));
        } else {
            let last = before.last().push(b.last());
            assert((first + before).last() == before.last());
            assert((first + before).drop_last().push(last) =~= first + before.drop_last().push(
                last,
            ));
        }
    }
}

proof fn head_stops(a: Seq<char>, b: Seq<char>, c: char)
    requires
        !a.contains(c),
    ensures
        text::head(a + seq![c] + b, c) == a,
    decreases a.len(),
{
    let whole = a + seq![c] + b;
    if a.len() > 0 {
        let rest = a.skip(1);
        assert forall|i: int| 0 <= i < rest.len() implies rest[i] != c by {
            assert(a.contains(a[i + 1]));
        }
        assert(a.contains(a[0]));
        head_stops(rest, b, c);
        assert(whole.skip(1) =~= rest + seq![c] + b);
        assert(seq![a[0]] + rest =~= a);
    } else {
        assert(a =~= Seq::<char>::empty());
    }
}

proof fn reading_past_one(first: Seq<char>, rest: Seq<Seq<char>>, name: Seq<char>, from: nat)
    ensures
        paired(seq![first] + rest, name, from + 1) == paired(rest, name, from),
    decreases rest.len() - from,
{
    let all = seq![first] + rest;
    if from < rest.len() {
        assert(all[from + 1int] == rest[from as int]);
        reading_past_one(first, rest, name, from + 1);
    }
}

/// A parameter of a query is read by its name, and the first of a name counts:
/// what is asked by another name is read in what follows.
pub proof fn a_parameter_is_read_by_its_name(
    name: Seq<char>,
    value: Seq<char>,
    rest: Seq<char>,
    other: Seq<char>,
)
    requires
        !name.contains('='),
        !name.contains('&'),
        !value.contains('&'),
        other != name,
    ensures
        written(name + seq!['='] + value, name) == Some(value),
        written(name + seq!['='] + value, other) is None,
        written(name + seq!['='] + value + seq!['&'] + rest, name) == Some(value),
        written(name + seq!['='] + value + seq!['&'] + rest, other) == written(rest, other),
{
    let one = name + seq!['='] + value;
    assert forall|i: int| 0 <= i < one.len() implies one[i] != '&' by {
        if i < name.len() {
            assert(name.contains(name[i]));
        } else if i > name.len() {
            assert(value.contains(value[i - name.len() - 1]));
        }
    }
    assert(!one.contains('&'));
    one_piece(one, '&');
    head_stops(name, value, '=');
    assert(one.skip(name.len() as int + 1) =~= value);
    pieces_part(one, rest, '&');
    let after = text::pieces(rest, '&');
    let all = seq![one] + after;
    assert(all[0] == one);
    reading_past_one(one, after, other, 0);
    reveal_with_fuel(paired, 2);
}

proof fn digits_count(s: Seq<char>, t: Seq<char>, n: nat)
    requires
        n <= s.len(),
        n <= t.len(),
        s.take(n as int) == t.take(n as int),
    ensures
        counted(s, n) == counted(t, n),
    decreases n,
{
    if n > 0 {
        assert(s.take(n as int)[n - 1] == s[n - 1]);
        assert(t.take(n as int)[n - 1] == t[n - 1]);
        assert(s.take(n - 1) =~= s.take(n as int).take(n - 1));
        assert(t.take(n - 1) =~= t.take(n as int).take(n - 1));
        digits_count(s, t, (n - 1) as nat);
    }
}

proof fn decimals_count(n: nat)
    requires
        n <= usize::MAX,
    ensures
        counted(text::decimal(n), text::decimal(n).len()) == Ok::<nat, Seq<char>>(n),
        text::decimal(n).len() > 0,
        text::is_digit(text::decimal(n)[0]),
    decreases n,
{
    let s = text::decimal(n);
    reveal_with_fuel(counted, 2);
    if n >= 10 {
        let before = text::decimal(n / 10);
        decimals_count(n / 10);
        assert(s.take(before.len() as int) =~= before.take(before.len() as int));
        digits_count(s, before, before.len());
        assert(s[s.len() - 1] == text::digit(n % 10));
        assert(s[0] == before[0]);
    }
}

/// An index is read as the number it spells: every number that fits is read
/// back, and a plus sign before it changes nothing.
pub proof fn an_index_is_read_as_it_is_written(n: nat)
    requires
        n <= usize::MAX,
    ensures
        indexed(Some(text::decimal(n))) == Ok::<nat, Seq<char>>(n),
        indexed(Some(seq!['+'] + text::decimal(n))) == Ok::<nat, Seq<char>>(n),
{
    decimals_count(n);
    let s = text::decimal(n);
    assert((seq!['+'] + s).skip(1) =~= s);
}

} // verus!
