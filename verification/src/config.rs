//! The configuration: which endpoints there are, and which command serves each.
//!
//! ```text
//! # comment lines start with #
//! 8000 /usr/bin/some_command some_args
//! # continued commands start with whitespace
//!      --some_more_args
//!
//! # empty lines also continue commands
//!      --some_even_more_args
//! ```
use vstd::prelude::*;

use crate::addr::{addr_of, parse_addr, Addr, AddrView};
use crate::split::{law_words_of_continued, split_cmd, words};
use crate::text::{chars_of, texts};

verus! {

/// An address to listen on, and the words of the command that serves it.
#[derive(Debug)]
pub struct Endpoint {
    pub addr: Addr,
    pub cmd: Vec<String>,
}

/// An endpoint as a mathematical value.
pub struct EndpointView {
    pub addr: AddrView,
    pub cmd: Seq<Seq<char>>,
}

impl View for Endpoint {
    type V = EndpointView;

    open spec fn view(&self) -> EndpointView {
        EndpointView { addr: self.addr@, cmd: texts(self.cmd@) }
    }
}

/// Why a line cannot be read.
#[derive(Debug, Clone, Copy, PartialEq, Eq, Structural)]
pub enum LineError {
    /// A continuation line has no predecessor.
    NoPredecessor,
    /// An address stands alone, with no space behind it.
    NoSpace,
    /// What stands before the first space is no address.
    BadAddr,
    /// A quote in the command, at this position of what is read as a command, is
    /// not closed.
    Unterminated { position: usize },
}

/// A line that cannot be read. Lines are counted from one.
#[derive(Debug, Clone, Copy, PartialEq, Eq, Structural)]
pub struct ConfigError {
    pub line: usize,
    pub error: LineError,
}

/// What has been read of a configuration: the endpoints that are complete, and the
/// one that a continuation line would continue.
pub struct ConfigReader {
    pub endpoint: Option<Endpoint>,
    pub endpoints: Vec<Endpoint>,
}

/// The state of a reader as a mathematical value.
pub struct ReaderView {
    pub endpoint: Option<EndpointView>,
    pub endpoints: Seq<EndpointView>,
}

/// The views of a sequence of endpoints.
pub open spec fn endpoint_views(endpoints: Seq<Endpoint>) -> Seq<EndpointView> {
    endpoints.map_values(|e: Endpoint| e@)
}

impl View for ConfigReader {
    type V = ReaderView;

    open spec fn view(&self) -> ReaderView {
        ReaderView {
            endpoint: match self.endpoint {
                Some(e) => Some(e@),
                None => None,
            },
            endpoints: endpoint_views(self.endpoints@),
        }
    }
}

impl ReaderView {
    /// Nothing read.
    pub open spec fn empty() -> ReaderView {
        ReaderView { endpoint: None, endpoints: Seq::empty() }
    }

    /// All endpoints that have been read, if nothing follows.
    pub open spec fn all(self) -> Seq<EndpointView> {
        match self.endpoint {
            Some(e) => self.endpoints.push(e),
            None => self.endpoints,
        }
    }
}

/// Whether a character separates an address from its command, or starts a
/// continuation line.
pub open spec fn is_separator(c: char) -> bool {
    c == ' ' || c == '\t'
}

/// Whether a line says nothing: it is empty or a comment.
pub open spec fn is_ignored(line: Seq<char>) -> bool {
    line.len() == 0 || line[0] == '#'
}

/// Whether a line continues the command of the line before it.
pub open spec fn is_continuation(line: Seq<char>) -> bool {
    line.len() > 0 && is_separator(line[0])
}

/// Whether a line starts an endpoint.
pub open spec fn is_header(line: Seq<char>) -> bool {
    !is_ignored(line) && !is_continuation(line)
}

/// The first position from `i` on where a separator stands, or the end of `s`.
pub open spec fn find_separator(s: Seq<char>, i: int) -> int
    decreases s.len() - i,
{
    if i >= s.len() || is_separator(s[i]) {
        i
    } else {
        find_separator(s, i + 1)
    }
}

/// The part of a header line that is its address.
pub open spec fn addr_part(line: Seq<char>) -> Seq<char> {
    line.take(find_separator(line, 0))
}

/// The part of a header line that is its command.
pub open spec fn cmd_part(line: Seq<char>) -> Seq<char> {
    line.skip(find_separator(line, 0) + 1)
}

/// The error that an unclosed quote at `p` is.
pub open spec fn unterminated(p: int) -> LineError {
    LineError::Unterminated { position: p as usize }
}

/// The endpoint that a header line starts.
pub open spec fn header_of(line: Seq<char>) -> Result<EndpointView, LineError> {
    if find_separator(line, 0) >= line.len() {
        Err(LineError::NoSpace)
    } else {
        match addr_of(addr_part(line)) {
            None => Err(LineError::BadAddr),
            Some(addr) => match words(cmd_part(line), 0) {
                Err(p) => Err(unterminated(p)),
                Ok(cmd) => Ok(EndpointView { addr, cmd }),
            },
        }
    }
}

/// What has been read after one more line.
pub open spec fn after_line(r: ReaderView, line: Seq<char>) -> Result<ReaderView, LineError> {
    if is_ignored(line) {
        Ok(r)
    } else if is_continuation(line) {
        match r.endpoint {
            None => Err(LineError::NoPredecessor),
            Some(e) => match words(line, 0) {
                Err(p) => Err(unterminated(p)),
                Ok(more) => Ok(
                    ReaderView {
                        endpoint: Some(EndpointView { addr: e.addr, cmd: e.cmd + more }),
                        endpoints: r.endpoints,
                    },
                ),
            },
        }
    } else {
        match header_of(line) {
            Err(error) => Err(error),
            Ok(e) => Ok(ReaderView { endpoint: Some(e), endpoints: r.all() }),
        }
    }
}

/// What has been read after the first `n` lines, or the first line that cannot be
/// read, counted from one, and why.
pub open spec fn after_lines(lines: Seq<Seq<char>>, n: int) -> Result<
    ReaderView,
    (int, LineError),
>
    decreases n,
{
    if n <= 0 {
        Ok(ReaderView::empty())
    } else {
        match after_lines(lines, n - 1) {
            Err(e) => Err(e),
            Ok(r) => match after_line(r, lines[n - 1]) {
                Err(error) => Err((n, error)),
                Ok(r) => Ok(r),
            },
        }
    }
}

/// The endpoints that a configuration declares.
pub open spec fn config_of(lines: Seq<Seq<char>>) -> Result<Seq<EndpointView>, (int, LineError)> {
    match after_lines(lines, lines.len() as int) {
        Err(e) => Err(e),
        Ok(r) => Ok(r.all()),
    }
}

proof fn lemma_find_separator(s: Seq<char>, i: int)
    requires
        0 <= i <= s.len(),
    ensures
        i <= find_separator(s, i) <= s.len(),
        find_separator(s, i) < s.len() ==> is_separator(s[find_separator(s, i)]),
        forall|k: int| i <= k < find_separator(s, i) ==> !is_separator(s[k]),
    decreases s.len() - i,
{
    if i < s.len() && !is_separator(s[i]) {
        lemma_find_separator(s, i + 1);
    }
}

/// Parts a line at the first space or tab.
fn split_header(line: &str) -> (r: Option<(&str, &str)>)
    ensures
        if find_separator(line@, 0) >= line@.len() {
            r is None
        } else {
            r is Some && (r->0).0@ == addr_part(line@) && (r->0).1@ == cmd_part(line@)
        },
{
    let chars = chars_of(line);
    let mut i: usize = 0;
    while i < chars.len() && chars[i] != ' ' && chars[i] != '\t'
        invariant
            i <= chars.len(),
            chars@ == line@,
            find_separator(line@, 0) == find_separator(line@, i as int),
        decreases chars.len() - i,
    {
        i += 1;
    }
    if i == chars.len() {
        return None;
    }
    assert(line@.subrange(0, i as int) =~= addr_part(line@));
    assert(line@.subrange(i + 1, line@.len() as int) =~= cmd_part(line@));
    Some((line.substring_char(0, i), line.substring_char(i + 1, chars.len())))
}

impl ConfigReader {
    /// A reader that has read nothing.
    pub fn new() -> (r: ConfigReader)
        ensures
            r@ == ReaderView::empty(),
    {
        let r = ConfigReader { endpoint: None, endpoints: Vec::new() };
        assert(r@.endpoints =~= Seq::empty());
        r
    }

    /// Reads one more line.
    pub fn read_config_line(self, line: &str) -> (r: Result<ConfigReader, LineError>)
        ensures
            match after_line(self@, line@) {
                Ok(next) => r is Ok && r->Ok_0@ == next,
                Err(error) => r is Err && r->Err_0 == error,
            },
    {
        let chars = chars_of(line);
        if chars.len() == 0 || chars[0] == '#' {
            return Ok(self);
        }
        let ConfigReader { endpoint, mut endpoints } = self;
        if chars[0] == ' ' || chars[0] == '\t' {
            let Some(mut e) = endpoint else {
                return Err(LineError::NoPredecessor);
            };
            match split_cmd(line) {
                Ok(mut more) => {
                    let ghost cmd = e.cmd@;
                    let ghost added = more@;
                    e.cmd.append(&mut more);
                    assert(texts(e.cmd@) =~= texts(cmd) + texts(added));
                    Ok(ConfigReader { endpoint: Some(e), endpoints })
                },
                Err(u) => Err(LineError::Unterminated { position: u.position }),
            }
        } else {
            if let Some(e) = endpoint {
                let ghost done = endpoints@;
                endpoints.push(e);
                assert(endpoint_views(endpoints@) =~= endpoint_views(done).push(e@));
            }
            let Some((addr_str, cmd_str)) = split_header(line) else {
                return Err(LineError::NoSpace);
            };
            let Some(addr) = parse_addr(addr_str) else {
                return Err(LineError::BadAddr);
            };
            match split_cmd(cmd_str) {
                Ok(cmd) => Ok(
                    ConfigReader { endpoint: Some(Endpoint { addr, cmd }), endpoints },
                ),
                Err(u) => Err(LineError::Unterminated { position: u.position }),
            }
        }
    }

    /// All endpoints that have been read.
    pub fn finish(self) -> (endpoints: Vec<Endpoint>)
        ensures
            endpoint_views(endpoints@) == self@.all(),
    {
        let mut endpoints = self.endpoints;
        if let Some(e) = self.endpoint {
            endpoints.push(e);
        }
        assert(endpoint_views(endpoints@) =~= self@.all());
        endpoints
    }
}

/// Reads the lines of a configuration.
pub fn read_config(lines: &Vec<String>) -> (r: Result<Vec<Endpoint>, ConfigError>)
    ensures
        match config_of(texts(lines@)) {
            Ok(endpoints) => r is Ok && endpoint_views(r->Ok_0@) == endpoints,
            Err((line, error)) => r is Err && r->Err_0.line == line && r->Err_0.error == error,
        },
{
    let ghost all = texts(lines@);
    let mut reader = ConfigReader::new();
    let mut i: usize = 0;
    while i < lines.len()
        invariant
            i <= lines.len(),
            all == texts(lines@),
            after_lines(all, i as int) == Ok::<ReaderView, (int, LineError)>(reader@),
        decreases lines.len() - i,
    {
        assert(all[i as int] == lines@[i as int]@);
        match reader.read_config_line(lines[i].as_str()) {
            Ok(next) => {
                reader = next;
            },
            Err(error) => {
                proof {
                    lemma_first_error(all, i + 1, all.len() as int);
                }
                return Err(ConfigError { line: i + 1, error });
            },
        }
        i += 1;
    }
    Ok(reader.finish())
}

proof fn lemma_first_error(lines: Seq<Seq<char>>, m: int, n: int)
    requires
        0 <= m <= n,
        after_lines(lines, m) is Err,
    ensures
        after_lines(lines, n) == after_lines(lines, m),
    decreases n - m,
{
    if m < n {
        lemma_first_error(lines, m, n - 1);
    }
}

proof fn lemma_find_separator_before(a: Seq<char>, b: Seq<char>, i: int)
    requires
        0 <= i <= a.len(),
        find_separator(a, i) < a.len(),
    ensures
        find_separator(a + b, i) == find_separator(a, i),
    decreases a.len() - i,
{
    if i < a.len() && !is_separator(a[i]) {
        lemma_find_separator_before(a, b, i + 1);
    }
}

/// A command may be continued on a further line: a line that starts an endpoint or
/// continues one, and then a continuation line, are read as the one line that the
/// two make up. A quote that nothing closes is refused either way; it is counted
/// from the start of the command on the line where it stands.
pub proof fn law_continuation_joins(r: ReaderView, head: Seq<char>, tail: Seq<char>)
    requires
        !is_ignored(head),
        is_continuation(tail),
        after_line(r, head) is Ok,
    ensures
        match words(tail, 0) {
            Ok(_) => {
                &&& after_line(after_line(r, head)->Ok_0, tail) is Ok
                &&& after_line(after_line(r, head)->Ok_0, tail) == after_line(r, head + tail)
            },
            Err(p) => {
                let before = if is_header(head) {
                    cmd_part(head).len()
                } else {
                    head.len()
                };
                &&& after_line(after_line(r, head)->Ok_0, tail) == Err::<ReaderView, LineError>(
                    unterminated(p),
                )
                &&& after_line(r, head + tail) == Err::<ReaderView, LineError>(
                    unterminated(before + p),
                )
            },
        },
{
    let line = head + tail;
    assert(line[0] == head[0]);
    if is_continuation(head) {
        law_words_of_continued(head, tail);
        if let Ok(more) = words(tail, 0) {
            let e = r.endpoint->0;
            assert(e.cmd + words(head, 0)->Ok_0 + more =~= e.cmd + (words(head, 0)->Ok_0 + more));
        }
    } else {
        lemma_find_separator(head, 0);
        lemma_find_separator_before(head, tail, 0);
        assert(addr_part(line) =~= addr_part(head));
        assert(cmd_part(line) =~= cmd_part(head) + tail);
        law_words_of_continued(cmd_part(head), tail);
    }
}

proof fn lemma_after_lines_before(a: Seq<Seq<char>>, b: Seq<Seq<char>>, n: int)
    requires
        n <= a.len(),
    ensures
        after_lines(a + b, n) == after_lines(a, n),
    decreases n,
{
    if n > 0 {
        lemma_after_lines_before(a, b, n - 1);
    }
}

/// The same result where a line has been put in after the first `at` lines.
pub open spec fn renumbered<T>(r: Result<T, (int, LineError)>, at: int) -> Result<
    T,
    (int, LineError),
> {
    match r {
        Ok(x) => Ok(x),
        Err((line, error)) => Err(
            (
                if line <= at {
                    line
                } else {
                    line + 1
                },
                error,
            ),
        ),
    }
}

proof fn lemma_after_lines_with(a: Seq<Seq<char>>, line: Seq<char>, b: Seq<Seq<char>>, n: int)
    requires
        is_ignored(line),
        0 <= n <= b.len(),
    ensures
        after_lines(a + seq![line] + b, a.len() + 1 + n) == renumbered(
            after_lines(a + b, a.len() + n),
            a.len() as int,
        ),
    decreases n,
{
    let with = a + seq![line] + b;
    let m = a.len() as int;
    if n == 0 {
        assert(with =~= a + (seq![line] + b));
        lemma_after_lines_before(a, seq![line] + b, m);
        lemma_after_lines_before(a, b, m);
        assert(with[m] == line);
        lemma_error_at(a, m);
    } else {
        lemma_after_lines_with(a, line, b, n - 1);
        assert(with[m + n] == b[n - 1]);
        assert((a + b)[m + n - 1] == b[n - 1]);
    }
}

/// Empty lines and comment lines may stand anywhere, between the lines of one
/// command too: they change nothing but the numbers of the lines behind them.
pub proof fn law_ignored_lines(a: Seq<Seq<char>>, line: Seq<char>, b: Seq<Seq<char>>)
    requires
        is_ignored(line),
    ensures
        config_of(a + seq![line] + b) == renumbered(config_of(a + b), a.len() as int),
{
    lemma_after_lines_with(a, line, b, b.len() as int);
}

/// The positions of the header lines among the first `n` lines.
pub open spec fn headers(lines: Seq<Seq<char>>, n: int) -> Seq<int>
    decreases n,
{
    if n <= 0 {
        Seq::empty()
    } else if is_header(lines[n - 1]) {
        headers(lines, n - 1).push(n - 1)
    } else {
        headers(lines, n - 1)
    }
}

/// The words of the continuation lines from `from` up to `to`, in their order.
pub open spec fn continued(lines: Seq<Seq<char>>, from: int, to: int) -> Seq<Seq<char>>
    decreases to - from,
{
    if to <= from {
        Seq::empty()
    } else if is_continuation(lines[to - 1]) {
        continued(lines, from, to - 1) + words(lines[to - 1], 0)->Ok_0
    } else {
        continued(lines, from, to - 1)
    }
}

/// The endpoint that the `k`-th header line of the first `n` lines declares: its address,
/// its command, and then the words of the continuation lines before the next header.
pub open spec fn declared(lines: Seq<Seq<char>>, n: int, k: int) -> EndpointView {
    let at = headers(lines, n)[k];
    let end = if k + 1 < headers(lines, n).len() {
        headers(lines, n)[k + 1]
    } else {
        n
    };
    EndpointView {
        addr: header_of(lines[at])->Ok_0.addr,
        cmd: header_of(lines[at])->Ok_0.cmd + continued(lines, at + 1, end),
    }
}

/// Whether a line can be read where it stands: it is ignored, or it is a header line
/// with an address and a command, or it continues a header line and its quotes are
/// closed.
pub open spec fn is_good(lines: Seq<Seq<char>>, i: int) -> bool {
    ||| is_ignored(lines[i])
    ||| is_header(lines[i]) && header_of(lines[i]) is Ok
    ||| is_continuation(lines[i]) && headers(lines, i).len() > 0 && words(lines[i], 0) is Ok
}

/// Why a line that cannot be read where it stands cannot be read.
pub open spec fn fault(lines: Seq<Seq<char>>, i: int) -> LineError {
    if is_header(lines[i]) {
        header_of(lines[i])->Err_0
    } else if headers(lines, i).len() == 0 {
        LineError::NoPredecessor
    } else {
        unterminated(words(lines[i], 0)->Err_0)
    }
}

proof fn lemma_headers(lines: Seq<Seq<char>>, n: int)
    requires
        0 <= n,
    ensures
        forall|k: int|
            0 <= k < headers(lines, n).len() ==> 0 <= #[trigger] headers(lines, n)[k] < n,
    decreases n,
{
    if n > 0 {
        lemma_headers(lines, n - 1);
        assert forall|k: int| 0 <= k < headers(lines, n).len() implies 0 <= #[trigger] headers(
            lines,
            n,
        )[k] < n by {
            if k < headers(lines, n - 1).len() {
                assert(headers(lines, n)[k] == headers(lines, n - 1)[k]);
            }
        }
    }
}

proof fn lemma_declared(lines: Seq<Seq<char>>, n: int)
    requires
        0 <= n,
    ensures
        after_lines(lines, n) matches Ok(r) ==> {
            &&& r.all().len() == headers(lines, n).len()
            &&& forall|k: int|
                0 <= k < r.all().len() ==> #[trigger] r.all()[k] == declared(lines, n, k)
            &&& r.endpoint is None ==> r.endpoints.len() == 0
        },
    decreases n,
{
    if n > 0 {
        lemma_declared(lines, n - 1);
        lemma_headers(lines, n - 1);
        let line = lines[n - 1];
        let old_headers = headers(lines, n - 1);
        if let Ok(r) = after_lines(lines, n - 1) {
            if let Ok(next) = after_line(r, line) {
                assert forall|k: int| 0 <= k < next.all().len() implies #[trigger] next.all()[k]
                    == declared(lines, n, k) by {
                    if k < old_headers.len() {
                        let at = old_headers[k];
                        let cmd = header_of(lines[at])->Ok_0.cmd;
                        assert(r.all()[k] == declared(lines, n - 1, k));
                        if k + 1 == old_headers.len() && is_continuation(line) {
                            let before = continued(lines, at + 1, n - 1);
                            let more = words(line, 0)->Ok_0;
                            assert(cmd + before + more =~= cmd + (before + more));
                        }
                    } else {
                        let cmd = header_of(line)->Ok_0.cmd;
                        assert(cmd + Seq::<Seq<char>>::empty() =~= cmd);
                    }
                }
            }
        }
    }
}

/// A configuration declares one endpoint for each header line, in their order. Each has
/// the address of its header line, and its command is the words of that line followed by
/// those of each continuation line before the next header line, in order.
pub proof fn law_endpoints_of_headers(lines: Seq<Seq<char>>)
    ensures
        config_of(lines) matches Ok(endpoints) ==> {
            &&& endpoints.len() == headers(lines, lines.len() as int).len()
            &&& forall|k: int|
                0 <= k < endpoints.len() ==> #[trigger] endpoints[k] == declared(
                    lines,
                    lines.len() as int,
                    k,
                )
        },
{
    lemma_declared(lines, lines.len() as int);
}

proof fn lemma_good(lines: Seq<Seq<char>>, n: int)
    requires
        0 <= n,
    ensures
        after_lines(lines, n) is Ok <==> forall|i: int| 0 <= i < n ==> #[trigger] is_good(lines, i),
    decreases n,
{
    if n > 0 {
        lemma_good(lines, n - 1);
        lemma_declared(lines, n - 1);
        let last = is_good(lines, n - 1);
        if let Ok(r) = after_lines(lines, n - 1) {
            assert(r.endpoint is Some <==> r.all().len() > 0);
            assert(after_line(r, lines[n - 1]) is Ok <==> last);
        }
        if last && (forall|i: int| 0 <= i < n - 1 ==> #[trigger] is_good(lines, i)) {
            assert forall|i: int| 0 <= i < n implies #[trigger] is_good(lines, i) by {}
        }
    }
}

/// A configuration is accepted exactly if each of its lines can be read where it stands.
/// The line that is reported is the first that cannot, with the reason.
pub proof fn law_first_bad_line(lines: Seq<Seq<char>>)
    ensures
        config_of(lines) is Ok <==> forall|i: int|
            0 <= i < lines.len() ==> #[trigger] is_good(lines, i),
        config_of(lines) matches Err((line, error)) ==> {
            &&& 1 <= line <= lines.len()
            &&& !is_good(lines, line - 1)
            &&& error == fault(lines, line - 1)
            &&& forall|i: int| 0 <= i < line - 1 ==> #[trigger] is_good(lines, i)
        },
{
    let n = lines.len() as int;
    lemma_good(lines, n);
    if let Err((line, error)) = after_lines(lines, n) {
        lemma_error_at(lines, n);
        lemma_good(lines, line - 1);
        lemma_good(lines, line);
        lemma_declared(lines, line - 1);
    }
}

proof fn lemma_error_at(lines: Seq<Seq<char>>, n: int)
    requires
        0 <= n,
    ensures
        after_lines(lines, n) matches Err((line, _)) ==> {
            &&& 1 <= line <= n
            &&& after_lines(lines, line - 1) is Ok
            &&& after_lines(lines, line) == after_lines(lines, n)
        },
    decreases n,
{
    if n > 0 {
        lemma_error_at(lines, n - 1);
    }
}

/// The views have what they are views of: an endpoint's address and the words of its
/// command, a reader's endpoints in their order.
pub proof fn law_views(e: Endpoint, r: ConfigReader)
    ensures
        e@.addr == e.addr@,
        e@.cmd == texts(e.cmd@),
        r@.endpoint == match r.endpoint {
            Some(e) => Some(e@),
            None => None,
        },
        r@.endpoints.len() == r.endpoints@.len(),
        forall|i: int|
            0 <= i < r.endpoints@.len() ==> #[trigger] r@.endpoints[i] == r.endpoints@[i]@,
        endpoint_views(r.endpoints@) == r@.endpoints,
{
}

/// A reader has read the endpoints that are complete, and behind them the one that could
/// be continued. At first it has read none.
pub proof fn law_all_endpoints(endpoints: Seq<EndpointView>, e: EndpointView)
    ensures
        (ReaderView { endpoint: Some(e), endpoints }).all() == endpoints.push(e),
        (ReaderView { endpoint: None, endpoints }).all() == endpoints,
        ReaderView::empty().endpoint is None,
        ReaderView::empty().endpoints.len() == 0,
{
}

proof fn lemma_find_separator_at(s: Seq<char>, i: int, p: int)
    requires
        0 <= i <= p <= s.len(),
        forall|k: int| i <= k < p ==> s[k] != ' ' && s[k] != '\t',
        p < s.len() ==> s[p] == ' ' || s[p] == '\t',
    ensures
        find_separator(s, i) == p,
    decreases p - i,
{
    if i < p {
        lemma_find_separator_at(s, i + 1, p);
    }
}

/// A line that starts an endpoint is an address, a space or a tab, and a command. The
/// endpoint has the address that the text before the first space or tab spells, and the
/// words of the text behind it. Where that text spells no address, or else the command
/// has an unclosed quote, the line is refused. The endpoint before it is complete.
pub proof fn law_header_line(r: ReaderView, addr: Seq<char>, separator: char, cmd: Seq<char>)
    requires
        addr.len() > 0,
        addr[0] != '#',
        forall|k: int| 0 <= k < addr.len() ==> #[trigger] addr[k] != ' ' && addr[k] != '\t',
        separator == ' ' || separator == '\t',
    ensures
        after_line(r, addr + seq![separator] + cmd) == match (addr_of(addr), words(cmd, 0)) {
            (None, _) => Err::<ReaderView, LineError>(LineError::BadAddr),
            (Some(_), Err(p)) => Err(LineError::Unterminated { position: p as usize }),
            (Some(v), Ok(ws)) => Ok(
                ReaderView {
                    endpoint: Some(EndpointView { addr: v, cmd: ws }),
                    endpoints: match r.endpoint {
                        Some(e) => r.endpoints.push(e),
                        None => r.endpoints,
                    },
                },
            ),
        },
{
    let line = addr + seq![separator] + cmd;
    let n = addr.len() as int;
    assert(line[0] == addr[0]);
    assert forall|k: int| 0 <= k < n implies line[k] != ' ' && line[k] != '\t' by {
        assert(line[k] == addr[k]);
    }
    assert(line[n] == separator);
    lemma_find_separator_at(line, 0, n);
    assert(addr_part(line) =~= addr);
    assert(cmd_part(line) =~= cmd);
}

/// Any other line: one that is empty or starts with `#` says nothing; one that starts
/// with a space or a tab adds its words to the last endpoint, and is refused where there
/// is none or where a quote is not closed; and one with no space or tab at all is refused.
pub proof fn law_other_line(r: ReaderView, line: Seq<char>)
    ensures
        line.len() == 0 || line[0] == '#' ==> after_line(r, line) == Ok::<ReaderView, LineError>(r),
        line.len() > 0 && (line[0] == ' ' || line[0] == '\t') ==> after_line(r, line) == match (
            r.endpoint,
            words(line, 0),
        ) {
            (None, _) => Err::<ReaderView, LineError>(LineError::NoPredecessor),
            (Some(_), Err(p)) => Err(LineError::Unterminated { position: p as usize }),
            (Some(e), Ok(more)) => Ok(
                ReaderView {
                    endpoint: Some(EndpointView { addr: e.addr, cmd: e.cmd + more }),
                    endpoints: r.endpoints,
                },
            ),
        },
        line.len() > 0 && line[0] != '#' && (forall|k: int|
            0 <= k < line.len() ==> #[trigger] line[k] != ' ' && line[k] != '\t') ==> after_line(
            r,
            line,
        ) == Err::<ReaderView, LineError>(LineError::NoSpace),
{
    if line.len() > 0 && (forall|k: int|
        0 <= k < line.len() ==> #[trigger] line[k] != ' ' && line[k] != '\t') {
        lemma_find_separator_at(line, 0, line.len() as int);
    }
}

proof fn lemma_config_push(lines: Seq<Seq<char>>, line: Seq<char>)
    ensures
        after_lines(lines.push(line), lines.len() as int) == after_lines(
            lines,
            lines.len() as int,
        ),
{
    assert(lines.push(line) =~= lines + seq![line]);
    lemma_after_lines_before(lines, seq![line], lines.len() as int);
}

/// One more header line declares one more endpoint, behind the others: with the address
/// that the text before its first space or tab spells, and the words of the text behind
/// it. A line that is refused is reported by its number, counted from one.
pub proof fn law_config_with_header(
    lines: Seq<Seq<char>>,
    addr: Seq<char>,
    separator: char,
    cmd: Seq<char>,
)
    requires
        addr.len() > 0,
        addr[0] != '#',
        forall|k: int| 0 <= k < addr.len() ==> #[trigger] addr[k] != ' ' && addr[k] != '\t',
        separator == ' ' || separator == '\t',
    ensures
        config_of(lines) matches Ok(endpoints) ==> config_of(
            lines.push(addr + seq![separator] + cmd),
        ) == match (addr_of(addr), words(cmd, 0)) {
            (None, _) => Err::<Seq<EndpointView>, (int, LineError)>(
                (lines.len() as int + 1, LineError::BadAddr),
            ),
            (Some(_), Err(p)) => Err(
                (lines.len() as int + 1, LineError::Unterminated { position: p as usize }),
            ),
            (Some(v), Ok(ws)) => Ok(endpoints.push(EndpointView { addr: v, cmd: ws })),
        },
{
    let line = addr + seq![separator] + cmd;
    lemma_config_push(lines, line);
    if let Ok(r) = after_lines(lines, lines.len() as int) {
        law_header_line(r, addr, separator, cmd);
    }
}

/// What any other line does to a configuration. No line: no endpoints. An empty line or a
/// comment: nothing. A line that starts with a space or a tab: its words are added to the
/// command of the last endpoint, if there is one. A line with no space or tab is refused.
/// Once a line has been refused, those behind it do not matter.
pub proof fn law_config_with_line(lines: Seq<Seq<char>>, line: Seq<char>)
    ensures
        config_of(Seq::empty()) == Ok::<Seq<EndpointView>, (int, LineError)>(Seq::empty()),
        config_of(lines) is Err ==> config_of(lines.push(line)) == config_of(lines),
        config_of(lines) matches Ok(endpoints) ==> {
            &&& line.len() == 0 || line[0] == '#' ==> config_of(lines.push(line)) == config_of(
                lines,
            )
            &&& line.len() > 0 && (line[0] == ' ' || line[0] == '\t') ==> config_of(
                lines.push(line),
            ) == if endpoints.len() == 0 {
                Err::<Seq<EndpointView>, (int, LineError)>(
                    (lines.len() as int + 1, LineError::NoPredecessor),
                )
            } else {
                match words(line, 0) {
                    Err(p) => Err(
                        (lines.len() as int + 1, LineError::Unterminated { position: p as usize }),
                    ),
                    Ok(more) => Ok(
                        endpoints.drop_last().push(
                            EndpointView {
                                addr: endpoints.last().addr,
                                cmd: endpoints.last().cmd + more,
                            },
                        ),
                    ),
                }
            }
            &&& line.len() > 0 && line[0] != '#' && (forall|k: int|
                0 <= k < line.len() ==> #[trigger] line[k] != ' ' && line[k] != '\t')
                ==> config_of(lines.push(line)) == Err::<Seq<EndpointView>, (int, LineError)>(
                (lines.len() as int + 1, LineError::NoSpace),
            )
        },
{
    lemma_config_push(lines, line);
    if let Ok(r) = after_lines(lines, lines.len() as int) {
        law_other_line(r, line);
        lemma_declared(lines, lines.len() as int);
        if let Some(e) = r.endpoint {
            assert(r.all().drop_last() =~= r.endpoints);
        }
    }
}

/// A reader that takes a header line has an endpoint with the address that the text before
/// the first space or tab spells and the words of the text behind it, and keeps all others.
pub proof fn law_read_header(
    reader: ConfigReader,
    line: &str,
    r: Result<ConfigReader, LineError>,
    addr: Seq<char>,
    separator: char,
    cmd: Seq<char>,
)
    requires
        call_ensures(ConfigReader::read_config_line, (reader, line), r),
        line@ == addr + seq![separator] + cmd,
        addr.len() > 0,
        addr[0] != '#',
        forall|k: int| 0 <= k < addr.len() ==> #[trigger] addr[k] != ' ' && addr[k] != '\t',
        separator == ' ' || separator == '\t',
    ensures
        r is Ok <==> addr_of(addr) is Some && words(cmd, 0) is Ok,
        r matches Ok(next) ==> {
            &&& next.endpoint is Some
            &&& next.endpoint->0.addr@ == addr_of(addr)->0
            &&& texts(next.endpoint->0.cmd@) == words(cmd, 0)->Ok_0
            &&& endpoint_views(next.endpoints@) == match reader.endpoint {
                Some(e) => endpoint_views(reader.endpoints@).push(e@),
                None => endpoint_views(reader.endpoints@),
            }
        },
        addr_of(addr) is None ==> r == Err::<ConfigReader, LineError>(LineError::BadAddr),
        addr_of(addr) is Some && words(cmd, 0) is Err ==> r == Err::<ConfigReader, LineError>(
            LineError::Unterminated { position: words(cmd, 0)->Err_0 as usize },
        ),
{
    law_header_line(reader@, addr, separator, cmd);
}

/// A configuration with one more header line gives the endpoints that it gave without it,
/// and behind them one with the address that the text before the first space or tab spells
/// and the words of the text behind it.
pub proof fn law_read_one_more(
    lines: &Vec<String>,
    more: &Vec<String>,
    r: Result<Vec<Endpoint>, ConfigError>,
    s: Result<Vec<Endpoint>, ConfigError>,
    addr: Seq<char>,
    separator: char,
    cmd: Seq<char>,
)
    requires
        call_ensures(read_config, (lines,), r),
        call_ensures(read_config, (more,), s),
        texts(more@) == texts(lines@).push(addr + seq![separator] + cmd),
        addr.len() > 0,
        addr[0] != '#',
        forall|k: int| 0 <= k < addr.len() ==> #[trigger] addr[k] != ' ' && addr[k] != '\t',
        separator == ' ' || separator == '\t',
    ensures
        r matches Err(error) ==> s is Err && s->Err_0 == error,
        r is Ok ==> (s is Ok <==> addr_of(addr) is Some && words(cmd, 0) is Ok),
        r is Ok && s is Err ==> s->Err_0.line == lines@.len() + 1 && s->Err_0.error == if addr_of(
            addr,
        ) is None {
            LineError::BadAddr
        } else {
            LineError::Unterminated { position: words(cmd, 0)->Err_0 as usize }
        },
        r is Ok && s is Ok ==> {
            &&& s->Ok_0@.len() == r->Ok_0@.len() + 1
            &&& forall|k: int|
                0 <= k < r->Ok_0@.len() ==> (#[trigger] s->Ok_0@[k])@ == r->Ok_0@[k]@
            &&& s->Ok_0@.last().addr@ == addr_of(addr)->0
            &&& texts(s->Ok_0@.last().cmd@) == words(cmd, 0)->Ok_0
        },
{
    law_config_with_header(texts(lines@), addr, separator, cmd);
    law_config_with_line(texts(lines@), addr + seq![separator] + cmd);
    if r is Ok && s is Ok {
        let (few, all) = (r->Ok_0@, s->Ok_0@);
        assert(endpoint_views(all).len() == all.len());
        assert(endpoint_views(few).len() == few.len());
        assert forall|k: int| 0 <= k < few.len() implies (#[trigger] all[k])@ == few[k]@ by {
            assert(endpoint_views(all)[k] == endpoint_views(few)[k]);
        }
        assert(endpoint_views(all)[few.len() as int] == all.last()@);
    }
}

/// A reader that takes a line which is empty or a comment stays as it is. One that takes a
/// line which starts with a space or a tab has the words of the line added to its last
/// endpoint, and nothing else changes; it refuses the line if there is no endpoint. Any other line
/// without a space or tab is refused.
pub proof fn law_read_other_line(
    reader: ConfigReader,
    line: &str,
    r: Result<ConfigReader, LineError>,
)
    requires
        call_ensures(ConfigReader::read_config_line, (reader, line), r),
    ensures
        line@.len() == 0 || line@[0] == '#' ==> r is Ok && r->Ok_0@ == reader@,
        line@.len() > 0 && (line@[0] == ' ' || line@[0] == '\t') ==> {
            &&& reader.endpoint is None ==> r == Err::<ConfigReader, LineError>(
                LineError::NoPredecessor,
            )
            &&& reader.endpoint is Some ==> (r is Ok <==> words(line@, 0) is Ok)
            &&& reader.endpoint is Some && words(line@, 0) is Err ==> r == Err::<
                ConfigReader,
                LineError,
            >(LineError::Unterminated { position: words(line@, 0)->Err_0 as usize })
            &&& r matches Ok(next) ==> {
                &&& next.endpoint is Some
                &&& next.endpoint->0.addr@ == reader.endpoint->0.addr@
                &&& texts(next.endpoint->0.cmd@) == texts(reader.endpoint->0.cmd@) + words(
                    line@,
                    0,
                )->Ok_0
                &&& endpoint_views(next.endpoints@) == endpoint_views(reader.endpoints@)
            }
        },
        line@.len() > 0 && line@[0] != '#' && (forall|k: int|
            0 <= k < line@.len() ==> #[trigger] line@[k] != ' ' && line@[k] != '\t') ==> r
            == Err::<ConfigReader, LineError>(LineError::NoSpace),
{
    law_other_line(reader@, line@);
}

/// A reader starts with no endpoint, and in the end gives those that are complete and then
/// the one that could have been continued.
pub proof fn law_first_and_last(
    fresh: ConfigReader,
    reader: ConfigReader,
    endpoints: Vec<Endpoint>,
)
    requires
        call_ensures(ConfigReader::new, (), fresh),
        call_ensures(ConfigReader::finish, (reader,), endpoints),
    ensures
        fresh.endpoint is None && fresh.endpoints@.len() == 0,
        endpoints@.len() == reader.endpoints@.len() + if reader.endpoint is Some {
            1int
        } else {
            0
        },
        forall|k: int|
            0 <= k < reader.endpoints@.len() ==> (#[trigger] endpoints@[k])@
                == reader.endpoints@[k]@,
        reader.endpoint is Some ==> endpoints@.last()@ == reader.endpoint->0@,
{
    assert(endpoint_views(fresh.endpoints@).len() == fresh.endpoints@.len());
    assert(endpoint_views(endpoints@).len() == endpoints@.len());
    assert forall|k: int| 0 <= k < reader.endpoints@.len() implies (#[trigger] endpoints@[k])@
        == reader.endpoints@[k]@ by {
        assert(endpoint_views(endpoints@)[k] == endpoint_views(reader.endpoints@)[k]);
    }
    if reader.endpoint is Some {
        let n = reader.endpoints@.len() as int;
        assert(endpoint_views(endpoints@)[n] == endpoints@[n]@);
    }
}

/// A configuration with one more line of another kind. Empty lines and comments change
/// nothing; a line that starts with a space or a tab adds its words to the last endpoint;
/// what cannot be read is reported by its number.
pub proof fn law_read_one_more_line(
    lines: &Vec<String>,
    more: &Vec<String>,
    line: Seq<char>,
    r: Result<Vec<Endpoint>, ConfigError>,
    s: Result<Vec<Endpoint>, ConfigError>,
)
    requires
        call_ensures(read_config, (lines,), r),
        call_ensures(read_config, (more,), s),
        texts(more@) == texts(lines@).push(line),
    ensures
        r matches Err(error) ==> s is Err && s->Err_0 == error,
        r is Ok && (line.len() == 0 || line[0] == '#') ==> s is Ok && endpoint_views(s->Ok_0@)
            == endpoint_views(r->Ok_0@),
        r is Ok && line.len() > 0 && (line[0] == ' ' || line[0] == '\t') ==> {
            let (few, all) = (endpoint_views(r->Ok_0@), endpoint_views(s->Ok_0@));
            &&& few.len() == 0 ==> s is Err && s->Err_0.error == LineError::NoPredecessor
            &&& few.len() > 0 ==> (s is Ok <==> words(line, 0) is Ok)
            &&& few.len() > 0 && s is Err ==> s->Err_0.error == LineError::Unterminated {
                position: words(line, 0)->Err_0 as usize,
            }
            &&& s is Err ==> s->Err_0.line == lines@.len() + 1
            &&& s is Ok ==> {
                &&& all.len() == few.len()
                &&& all.drop_last() == few.drop_last()
                &&& all.last().addr == few.last().addr
                &&& all.last().cmd == few.last().cmd + words(line, 0)->Ok_0
            }
        },
        r is Ok && line.len() > 0 && line[0] != '#' && (forall|k: int|
            0 <= k < line.len() ==> #[trigger] line[k] != ' ' && line[k] != '\t') ==> s is Err
            && s->Err_0.error == LineError::NoSpace && s->Err_0.line == lines@.len() + 1,
{
    law_config_with_line(texts(lines@), line);
    if r is Ok && s is Ok && line.len() > 0 && (line[0] == ' ' || line[0] == '\t') {
        assert(endpoint_views(s->Ok_0@).drop_last() =~= endpoint_views(r->Ok_0@).drop_last());
    }
}

} // verus!
