//! What the server of the interactive view answers.

use panicgraph::api;
use panicgraph::model::{
    Artifact, Body, BuildConfig, CallSite, EdgeKind, FuncKey, Guard, Loc, PanicSite, StdMode, UnwindOrigin,
};
use panicgraph::serve::{
    answer, ask, decode, loopback_port, node_of, pack_asset, param, percent_decode, plain, read_request, reply,
    respond, respond_cached, respond_with, route, source_reply, split_once_or, suppressed_from, Answer, Asset, Reply,
    Response, Route, HTML, JSON,
};
use panicgraph::solve::Edges;
use panicgraph::{Category, CategorySet, Graph, Termination};

/// Builds a function body one piece at a time.
struct BodyBuilder {
    body: Body,
}

#[allow(dead_code)]
impl BodyBuilder {
    /// Starts a local, non-opaque body.
    fn new(name: &str) -> Self {
        Self {
            body: Body {
                key: FuncKey(name.to_owned()),
                display: name.to_owned(),
                krate: "test".to_owned(),
                loc: None,
                sites: Vec::new(),
                calls: Vec::new(),
                opaque: false,
                foreign: false,
                local: true,
                from_tests: false,
            },
        }
    }

    /// Adds a panic raised on the ordinary control flow path.
    fn panics(mut self, category: Category) -> Self {
        self.body.sites.push(PanicSite {
            category,
            termination: Termination::Unwind,
            reason: format!("{} panic", category.name()),
            sink: None,
            loc: None,
            guard: Guard::always(),
            certain: false,
            terminates: false,
        });
        self
    }

    /// Adds a panic only when one is named, which is how a test asks for a
    /// function that cannot panic.
    fn maybe_panics(self, category: Option<Category>) -> Self {
        match category {
            Some(category) => self.panics(category),
            None => self,
        }
    }

    /// Adds a call on the ordinary control flow path.
    fn calls(mut self, callee: &str) -> Self {
        self.body.calls.push(call(callee, Guard::always()));
        self
    }

    /// Adds a call whose target is not known.
    fn calls_unresolved(mut self, kind: EdgeKind) -> Self {
        let mut edge = call("<unknown>", Guard::always());
        edge.callee = None;
        edge.kind = kind;
        self.body.calls.push(edge);
        self
    }

    /// Adds a call reachable only while the given earlier call unwinds.
    fn calls_on_unwind_of(mut self, callee: &str, call_index: u32) -> Self {
        self.body.calls.push(call(
            callee,
            Guard {
                normal: false,
                origins: vec![UnwindOrigin::Call(call_index)],
            },
        ));
        self
    }

    /// Finishes the body.
    fn build(self) -> Body {
        self.body
    }
}

/// A statically resolved call with the given reachability.
fn call(callee: &str, guard: Guard) -> CallSite {
    CallSite {
        callee: Some(FuncKey(callee.to_owned())),
        callee_display: callee.to_owned(),
        kind: EdgeKind::Static,
        loc: None,
        guard,
        barrier: false,
        terminates: false,
        candidate: false,
        sig: None,
        self_ty: None,
    }
}

/// One crate's artifact.
fn artifact(bodies: Vec<Body>) -> Artifact {
    Artifact {
        reified: Vec::new(),
        krate: "test".to_owned(),
        config: BuildConfig {
            rustc: "test".to_owned(),
            profile: "release".to_owned(),
            debug_assertions: false,
            overflow_checks: false,
            std_mode: StdMode::Shipped,
            mir_opt_level: None,
        },
        bodies,
    }
}

/// Builds the graph a set of bodies makes, as one crate's artifact.
#[allow(dead_code)]
fn graph(bodies: Vec<Body>) -> Graph {
    let made = vec![artifact(bodies)];
    Graph::from_artifacts(made)
}

/// One response, with its head read by name.
trait Headed {
    /// Whether a header line is present, matched case insensitively.
    fn has(&self, needle: &str) -> bool;

    /// The value of the `Content-Length` header.
    fn content_length(&self) -> usize;
}

impl Headed for Response {
    fn has(&self, needle: &str) -> bool {
        self.head
            .to_ascii_lowercase()
            .contains(&needle.to_ascii_lowercase())
    }

    fn content_length(&self) -> usize {
        self.head
            .to_ascii_lowercase()
            .lines()
            .find_map(|line| line.strip_prefix("content-length:").map(str::to_owned))
            .and_then(|value| value.trim().parse().ok())
            .unwrap_or(0)
    }
}

/// Issues one request and answers it.
fn get(built: &Graph, path: &str, accept_gzip: bool) -> Response {
    let mut headers = vec!["Host: localhost\r\n".to_owned()];
    if accept_gzip {
        headers.push("Accept-Encoding: gzip\r\n".to_owned());
    }
    headers.push("\r\n".to_owned());
    let line = format!("GET {path} HTTP/1.1\r\n");
    let request = read_request(&line, &headers).expect("the request should be read");
    let asked = ask(&request.target);
    let reply = match answer(built, Edges::default(), &asked) {
        Answer::File(asset) => {
            let plain = script();
            return respond_cached(request.gzip, asset, &plain, &pack_asset(&plain));
        }
        Answer::Source(file) => {
            let allowed = api::source_allowlist(built);
            source_reply(&allowed, &file, Err("it is not read here".to_owned()))
        }
        other => reply(&other).expect("no file is asked for"),
    };
    respond(request.gzip, reply).expect("the reply should be compressed")
}

/// The script the server hands out here.
fn script() -> Vec<u8> {
    let mut text = "// https://d3js.org v7\n".to_owned();
    for i in 0..4000 {
        text.push_str(&format!("function f{i}(a, b) {{ return a[{i}] === b; }}\n"));
    }
    text.into_bytes()
}

fn empty() -> Graph {
    Graph::from_artifacts(Vec::new())
}

/// A graph of many functions, whose document is large.
fn crowd() -> Graph {
    graph(
        (0..40)
            .map(|i| BodyBuilder::new(&format!("function_{i}")).panics(Category::Index).build())
            .collect(),
    )
}

#[test]
fn a_small_reply_is_left_alone() {
    let missing = get(&empty(), "/nothing-here", true);
    assert!(missing.has("404"));
    assert!(
        !missing.has("content-encoding"),
        "a reply shorter than the gzip header saves nothing by being \
         compressed"
    );
}

#[test]
fn json_endpoints_compress_too() {
    let packed = get(&empty(), "/api/graph", true);
    assert!(packed.has("application/json"));
    assert_eq!(packed.payload.len(), packed.content_length());
}

#[test]
fn an_unknown_path_is_a_not_found() {
    assert!(get(&empty(), "/api/nope", false).has("404"));
}

#[test]
fn an_escape_before_a_multibyte_character_is_answered() {
    // The two characters after a `%` need not sit on a character boundary,
    // and a decoder that slices the text through one takes the connection
    // down with it.
    let reply = get(&empty(), "/api/source?file=%\u{20ac}x", false);
    assert!(
        reply.head.starts_with("HTTP/1.1 "),
        "a malformed escape must be answered, not dropped"
    );
}

#[test]
fn a_large_document_is_compressed_when_asked() {
    let built = crowd();
    let plain = get(&built, "/api/graph", false);
    let packed = get(&built, "/api/graph", true);
    assert!(!plain.has("content-encoding"));
    assert!(packed.has("content-encoding: gzip"));
    assert!(packed.has("vary: accept-encoding"));
    assert_eq!(packed.payload.len(), packed.content_length());
    assert!(packed.payload.len() * 2 < plain.payload.len());
    assert_eq!(&packed.payload[..2], &[0x1f, 0x8b], "the gzip magic number");
}

#[test]
fn the_head_names_what_follows() {
    let response = respond_with(plain(404, "not found"), None);
    assert_eq!(
        response.head,
        "HTTP/1.1 404 Error\r\nContent-Type: text/plain; charset=utf-8\r\nContent-Length: 9\r\n\
         Vary: Accept-Encoding\r\nCache-Control: no-store\r\nConnection: close\r\n\r\n"
    );
    assert_eq!(response.payload, b"not found");
}

#[test]
fn compression_is_used_only_where_it_is_smaller() {
    let whole = || Reply { status: 200, content_type: JSON, body: vec![1; 10] };
    let used = respond_with(whole(), Some(vec![2; 9]));
    assert!(used.has("content-encoding: gzip"));
    assert_eq!(used.payload, vec![2; 9]);
    let unused = respond_with(whole(), Some(vec![2; 10]));
    assert!(!unused.has("content-encoding"));
    assert_eq!(unused.payload, vec![1; 10]);
}

#[test]
fn a_file_that_could_not_be_compressed_goes_out_plain() {
    let file = vec![b'a'; 2000];
    let packed = pack_asset(&file);
    assert!(!packed.is_empty() && packed.len() < file.len());
    let sent = respond_cached(true, Asset::Index, &file, &packed);
    assert_eq!(sent.payload, packed);
    assert!(sent.has(HTML));
    let failed = respond_cached(true, Asset::App, &file, &Vec::new());
    assert_eq!(failed.payload, file);
    assert!(failed.has("application/javascript") && !failed.has("content-encoding"));
    assert_eq!(respond_cached(false, Asset::D3, &file, &packed).payload, file);
}

#[test]
fn paths_lead_where_they_say() {
    assert_eq!(route("/"), Route::File(Asset::Index));
    assert_eq!(route("/index.html"), Route::File(Asset::Index));
    assert_eq!(route("/vue.global.prod.js"), Route::File(Asset::Vue));
    assert_eq!(route("/api/why"), Route::Why);
    assert_eq!(route("/api/source"), Route::Source);
    assert_eq!(route("/api/solve/"), Route::Missing);
}

#[test]
fn only_a_get_is_a_request() {
    assert!(read_request("POST / HTTP/1.1\r\n", &Vec::new()).is_none());
    assert!(read_request("GET\r\n", &Vec::new()).is_none());
    assert!(read_request("", &Vec::new()).is_none());
    let request = read_request("GET  /a?b  HTTP/1.1\r\n", &Vec::new()).expect("a target was given");
    assert_eq!(request.target, "/a?b");
    assert!(!request.gzip);
}

fn accepts(headers: &[&str]) -> bool {
    let headers = headers.iter().map(|h| (*h).to_owned()).collect();
    read_request("GET / HTTP/1.1", &headers).is_some_and(|r| r.gzip)
}

#[test]
fn the_encoding_header_is_read_as_a_list() {
    assert!(accepts(&["Accept-Encoding: deflate, gzip;q=0.5, br\r\n"]));
    assert!(accepts(&["ACCEPT-ENCODING:GZIP"]));
    assert!(!accepts(&["Accept-Encoding: gzipped"]));
    assert!(!accepts(&["\r\n", "Accept-Encoding: gzip"]), "the head ended before it");
    assert!(!accepts(&["Accept-Encoding: gzip", "Accept-Encoding: br"]));
    let many = vec!["X: y"; 100];
    let late: Vec<&str> = many.into_iter().chain(["Accept-Encoding: gzip"]).collect();
    assert!(!accepts(&late), "no more headers are read than the limit");
}

#[test]
fn a_target_is_split_and_its_parameters_are_decoded() {
    assert_eq!(split_once_or("/a?b?c", '?'), ("/a".to_owned(), "b?c".to_owned()));
    assert_eq!(split_once_or("/a", '?'), ("/a".to_owned(), String::new()));
    assert_eq!(param("a=1&b=2+3", "b").as_deref(), Some("2 3"));
    assert_eq!(param("a=1&b=%41%4a", "b").as_deref(), Some("AJ"));
    assert_eq!(param("a", "a").as_deref(), Some(""));
    assert_eq!(param("a=1&a=2", "a").as_deref(), Some("1"));
    assert_eq!(param("a=1", "b"), None);
}

#[test]
fn escapes_decode_byte_by_byte() {
    assert_eq!(decode(&b"a%20b+c".to_vec()), b"a b c".to_vec());
    assert_eq!(decode(&b"%4".to_vec()), b"%4".to_vec());
    assert_eq!(decode(&b"%zz%2B".to_vec()), b"%zz+".to_vec());
    assert_eq!(percent_decode("%E2%82%AC"), "\u{20ac}");
    assert_eq!(percent_decode("%ff"), "\u{fffd}", "what is not text is replaced");
    assert_eq!(percent_decode("src/lib.rs"), "src/lib.rs");
}

#[test]
fn an_index_that_is_no_number_is_named() {
    assert_eq!(node_of(&None), Ok(0));
    assert_eq!(node_of(&Some("17".to_owned())), Ok(17));
    assert_eq!(node_of(&Some("+3".to_owned())), Ok(3));
    assert_eq!(
        node_of(&Some("x1".to_owned())),
        Err("`x1` is not a function index: invalid digit found in string".to_owned())
    );
    assert_eq!(
        node_of(&Some(String::new())),
        Err("`` is not a function index: cannot parse integer from empty string".to_owned())
    );
    assert_eq!(
        node_of(&Some("99999999999999999999999".to_owned())),
        Err("`99999999999999999999999` is not a function index: number too large to fit in target type"
            .to_owned())
    );
    assert!(node_of(&Some("+".to_owned())).is_err() && node_of(&Some("-1".to_owned())).is_err());
}

#[test]
fn indices_read_as_the_standard_library_reads_them() {
    for text in ["0", "00", "+0", "42", "", "+", "-", "+-1", "1a", "18446744073709551615", "18446744073709551616"] {
        let ours = node_of(&Some(text.to_owned())).ok();
        assert_eq!(ours, text.parse::<usize>().ok(), "for {text:?}");
    }
}

#[test]
fn a_policy_that_names_nothing_known_is_no_policy() {
    assert_eq!(suppressed_from(&None), CategorySet::empty());
    assert_eq!(suppressed_from(&Some("oom".to_owned())), CategorySet::oom());
    assert_eq!(suppressed_from(&Some("oom,nope".to_owned())), CategorySet::empty());
}

#[test]
fn questions_that_cannot_be_answered_say_why() {
    let built = crowd();
    let why = |query: &str| match answer(&built, Edges::default(), &ask(&format!("/api/why?{query}"))) {
        Answer::Fault(message) => message,
        other => panic!("expected a fault, got {other:?}"),
    };
    assert_eq!(why("node=zz&category=index"), "`zz` is not a function index: invalid digit found in string");
    assert_eq!(why("node=0&category=nope"), "unknown panic category `nope`");
    assert_eq!(why("node=400&category=index"), "no function with index 400");
    let fault = reply(&Answer::Fault("no".to_owned())).expect("a fault is a reply");
    assert_eq!(fault.status, 400);
    assert_eq!(fault.body, b"{\"error\":\"no\"}");
}

#[test]
fn a_panic_is_explained_over_the_wire() {
    let built = crowd();
    match answer(&built, Edges::default(), &ask("/api/why?node=0&category=index&suppress=oom")) {
        Answer::Doc(doc) => assert_eq!(doc["found"], true),
        other => panic!("expected a document, got {other:?}"),
    }
    match answer(&built, Edges::default(), &ask("/api/flame?expand=1")) {
        Answer::Doc(doc) => assert!(doc["nodes"].as_array().is_some_and(|rows| rows.len() > 40)),
        other => panic!("expected a document, got {other:?}"),
    }
    match answer(&built, Edges::default(), &ask("/api/solve?suppress=index")) {
        Answer::Doc(doc) => assert_eq!(doc["summary"]["can_panic"], 0),
        other => panic!("expected a document, got {other:?}"),
    }
}

fn located() -> Graph {
    let mut body = BodyBuilder::new("f").panics(Category::Index).calls("g").build();
    let at = |file: &str| Some(Loc { file: file.to_owned(), line: 1, col: 1 });
    body.loc = at("a.rs");
    body.sites[0].loc = at("b.rs");
    body.calls[0].loc = at("c.rs");
    graph(vec![body])
}

#[test]
fn only_files_the_analysis_names_are_read() {
    let allowed = api::source_allowlist(&located());
    for file in ["a.rs", "b.rs", "c.rs"] {
        assert!(allowed.contains(file), "{file} is where something is written");
    }
    assert!(!allowed.contains("/etc/passwd"));
    let read = api::source(&allowed, "b.rs", Ok(b"fn f() {}".to_vec())).expect("it is named and read");
    assert_eq!(read["file"], "b.rs");
    assert_eq!(read["text"], "fn f() {}");
    assert_eq!(
        api::source(&allowed, "/etc/passwd", Ok(Vec::new())).err().as_deref(),
        Some("`/etc/passwd` is not referenced by this analysis")
    );
    assert_eq!(
        api::source(&allowed, "a.rs", Err("gone".to_owned())).err().as_deref(),
        Some("could not read a.rs: gone")
    );
    let long = vec![b'a'; api::MAX_SOURCE_BYTES + 1];
    assert_eq!(
        api::source(&allowed, "a.rs", Ok(long)).err().as_deref(),
        Some("`a.rs` is larger than this view will load")
    );
    let fault = api::source(&allowed, "a.rs", Ok(vec![0xff])).err().expect("it is not text");
    assert!(fault.starts_with("`a.rs` is not valid utf-8: invalid utf-8"), "got {fault}");
    assert_eq!(source_reply(&allowed, "a.rs", Ok(Vec::new())).status, 200);
    assert_eq!(source_reply(&allowed, "z.rs", Ok(Vec::new())).status, 400);
}

#[test]
fn a_bare_port_is_the_loopback_interface() {
    assert_eq!(loopback_port("8080"), Some(8080));
    assert_eq!(loopback_port("65535"), Some(65535));
    assert_eq!(loopback_port("65536"), None);
    assert_eq!(loopback_port("0.0.0.0:9001"), None);
    assert_eq!(loopback_port("not a host:99999999"), None);
}

#[test]
fn a_client_that_accepts_gzip_receives_it() {
    let packed = get(&empty(), "/d3.min.js", true);
    assert!(packed.has("content-encoding: gzip"));
    assert!(
        packed.has("vary: accept-encoding"),
        "a compressed reply must not be cached for clients that cannot \
         decode it"
    );
    assert_eq!(
        packed.payload.len(),
        packed.content_length(),
        "the length must describe the bytes actually sent"
    );
    assert_eq!(&packed.payload[..2], &[0x1f, 0x8b], "the body should carry the gzip magic number");
}

#[test]
fn a_client_that_does_not_accept_gzip_receives_plain_bytes() {
    let plain = get(&empty(), "/d3.min.js", false);
    assert!(!plain.has("content-encoding"));
    assert_eq!(plain.payload.len(), plain.content_length());
    assert!(
        plain.payload.starts_with(b"// https://d3js.org"),
        "an uncompressed reply should be the asset itself"
    );
}

#[test]
fn compression_shrinks_a_large_asset() {
    let plain = get(&empty(), "/d3.min.js", false);
    let packed = get(&empty(), "/d3.min.js", true);
    assert!(
        packed.payload.len() * 2 < plain.payload.len(),
        "compressing a large script should at least halve it, got {} from {}",
        packed.payload.len(),
        plain.payload.len()
    );
}

#[test]
fn a_refused_source_file_says_why() {
    let mut body = BodyBuilder::new("f").panics(Category::Index).build();
    body.loc = Some(Loc { file: "a.rs".to_owned(), line: 1, col: 1 });
    let allowed = api::source_allowlist(&graph(vec![body]));
    let said = |read: Result<Vec<u8>, String>| {
        let reply = source_reply(&allowed, "a.rs", read);
        (reply.status, String::from_utf8(reply.body).expect("it is text"))
    };
    assert_eq!(said(Err("gone".to_owned())), (400, "{\"error\":\"could not read a.rs: gone\"}".to_owned()));
    assert_eq!(
        said(Ok(vec![b'a'; api::MAX_SOURCE_BYTES + 1])),
        (400, "{\"error\":\"`a.rs` is larger than this view will load\"}".to_owned())
    );
    assert_eq!(said(Ok(vec![0xff])).0, 400);
    assert!(said(Ok(vec![0xff])).1.contains("`a.rs` is not valid utf-8: "));
    assert_eq!(said(Ok(b"x".to_vec())), (200, "{\"file\":\"a.rs\",\"text\":\"x\"}".to_owned()));
    assert_eq!(said(Ok(vec![b'a'; api::MAX_SOURCE_BYTES])).0, 200);
}
