//! The standard input and output of the server: lines of JSON-RPC, in which requests that the
//! protocol library does not know are refused rather than fatal.
use crate::json::{self, Json, JsonView};
use vstd::prelude::*;

verus! {

/// The JSON-RPC code for a method that the server does not have.
pub const METHOD_NOT_FOUND: i32 = -32601;

/// The byte that ends a line.
pub const LINE_FEED: u8 = 10;

/// The byte that may stand in front of it.
pub const CARRIAGE_RETURN: u8 = 13;

/// The refusal of a request.
pub open spec fn refusal(id: JsonView, method: Seq<char>) -> JsonView {
    JsonView::Object(
        seq![
            ("jsonrpc"@, JsonView::Text("2.0"@)),
            ("id"@, id),
            (
                "error"@,
                JsonView::Object(
                    seq![
                        ("code"@, JsonView::Integer(METHOD_NOT_FOUND as int)),
                        ("message"@, JsonView::Text("Method not found: "@ + method)),
                    ],
                ),
            ),
        ],
    )
}

/// True for a request that wants an answer: it names a method, and has an identifier that is not
/// null.
pub open spec fn wants_answer(value: JsonView) -> bool {
    &&& json::string_member(value, "method"@) is Some
    &&& json::member(value, "id"@) is Some
    &&& !(json::member(value, "id"@)->0 is Null)
}

/// The identifier of a request.
pub open spec fn request_id(value: JsonView) -> JsonView {
    json::member(value, "id"@)->0
}

/// The method of a request.
pub open spec fn request_method(value: JsonView) -> Seq<char> {
    json::string_member(value, "method"@)->0
}

/// A member of a value in canonical form is in canonical form.
proof fn lemma_member_is_canonical(value: JsonView, key: Seq<char>)
    requires
        json::canonical(value) == value,
        json::member(value, key) is Some,
    ensures
        json::canonical(json::member(value, key)->0) == json::member(value, key)->0,
{
    let members = value->Object_0;
    let mapped = json::canonical_members(members);
    json::lemma_distinct_of_same_length(mapped);
    let at = json::lemma_member_in(members, key);
    assert(mapped[at] == members[at]);
}

/// A refusal is in canonical form where the identifier is.
proof fn lemma_refusal_is_canonical(id: JsonView, method: Seq<char>)
    requires
        json::canonical(id) == id,
    ensures
        json::canonical(refusal(id, method)) == refusal(id, method),
{
    reveal_strlit("jsonrpc");
    reveal_strlit("id");
    reveal_strlit("error");
    reveal_strlit("code");
    reveal_strlit("message");
    assert("jsonrpc"@.len() == 7 && "id"@.len() == 2 && "error"@.len() == 5);
    assert("code"@.len() == 4 && "message"@.len() == 7);
    let outer = refusal(id, method)->Object_0;
    let error = outer[2].1;
    let inner = error->Object_0;
    assert forall|i: int, j: int| 0 <= i < j < inner.len() implies (#[trigger] inner[i]).0 != (
    #[trigger] inner[j]).0 by {
        assert(i == 0 && j == 1);
    }
    json::lemma_distinct_members(inner);
    assert(json::canonical(inner[0].1) == inner[0].1);
    assert(json::canonical(inner[1].1) == inner[1].1);
    json::lemma_canonical_object(inner);
    assert forall|i: int, j: int| 0 <= i < j < outer.len() implies (#[trigger] outer[i]).0 != (
    #[trigger] outer[j]).0 by {
        assert((i == 0 && j == 1) || (i == 0 && j == 2) || (i == 1 && j == 2));
    }
    json::lemma_distinct_members(outer);
    assert(json::canonical(outer[0].1) == outer[0].1);
    json::lemma_canonical_object(outer);
}

/// A refusal reads back where the identifier does.
proof fn lemma_refusal_reads_back(id: JsonView, method: Seq<char>)
    requires
        json::reads_back(id, (json::MAX_DEPTH - 1) as nat),
    ensures
        json::reads_back(refusal(id, method), json::MAX_DEPTH as nat),
{
    reveal_strlit("jsonrpc");
    reveal_strlit("id");
    reveal_strlit("error");
    reveal_strlit("code");
    reveal_strlit("message");
    assert("jsonrpc"@.len() == 7 && "id"@.len() == 2 && "error"@.len() == 5);
    assert("code"@.len() == 4 && "message"@.len() == 7);
    reveal_strlit("$serde_json::private::RawValue");
    assert("$serde_json::private::RawValue"@.len() == 30);
    reveal_with_fuel(json::reads_back, 3);
    let outer = refusal(id, method)->Object_0;
    let inner = outer[2].1->Object_0;
    assert forall|i: int| 0 <= i < inner.len() implies (#[trigger] inner[i]).0
        != "$serde_json::private::RawValue"@ && json::reads_back(
        inner[i].1,
        (json::MAX_DEPTH - 2) as nat,
    ) by {
        assert(i == 0 || i == 1);
    }
    assert(json::reads_back(outer[2].1, (json::MAX_DEPTH - 1) as nat));
    assert forall|i: int| 0 <= i < outer.len() implies (#[trigger] outer[i]).0
        != "$serde_json::private::RawValue"@ && json::reads_back(
        outer[i].1,
        (json::MAX_DEPTH - 1) as nat,
    ) by {
        assert(i == 0 || i == 1 || i == 2);
    }
}

/// The refusal of a request that the protocol library does not know, none for what wants no answer:
/// notifications, and what is no request at all.
pub fn refusal_for(value: &Json) -> (reply: Option<Json>)
    ensures
        match reply {
            Some(answer) => wants_answer(value@) && answer@ == refusal(
                request_id(value@),
                request_method(value@),
            ),
            None => !wants_answer(value@),
        },
{
    let method = match value.string_member("method") {
        Some(method) => method,
        None => return None,
    };
    let id = match value.get("id") {
        Some(id) => {
            if id.is_null() {
                return None;
            }
            id.copy()
        },
        None => return None,
    };
    let ghost expected = refusal(id@, method@)->Object_0;
    let mut error: Vec<(String, Json)> = Vec::new();
    json::put(&mut error, "code", Json::Integer(METHOD_NOT_FOUND as i128));
    json::put(
        &mut error,
        "message",
        json::text("Method not found: ".to_owned().concat(method.as_str()).as_str()),
    );
    assert(json::members_view(error@) =~= expected[2].1->Object_0);
    let mut members: Vec<(String, Json)> = Vec::new();
    json::put(&mut members, "jsonrpc", json::text("2.0"));
    json::put(&mut members, "id", id);
    json::put(&mut members, "error", json::object(error));
    let reply = json::object(members);
    assert(reply@->Object_0 =~= expected);
    Some(reply)
}

/// The bytes that refuse a request which the protocol library does not know, nothing for what
/// wants no answer and for what is no JSON document.
///
/// The client reads the refusal with its own identifier back from the bytes, unless the identifier
/// holds a number that is not an integer, nests too deeply, or holds an object that the reader
/// takes for verbatim text.
pub fn method_not_found_response(line: &[u8]) -> (response: Option<Vec<u8>>)
    ensures
        match (json::document_of_bytes(line@), response) {
            (Some(value), Some(bytes)) => {
                &&& wants_answer(value)
                &&& bytes@ == json::json_bytes(
                    json::canonical(refusal(request_id(value), request_method(value))),
                )
                &&& json::reads_back(request_id(value), (json::MAX_DEPTH - 1) as nat)
                    ==> json::document_of_bytes(bytes@) == Some(
                    refusal(request_id(value), request_method(value)),
                )
            },
            (Some(value), None) => !wants_answer(value),
            (None, _) => response is None,
        },
{
    let value = match json::parse_bytes(line) {
        Some(value) => value,
        None => return None,
    };
    match refusal_for(&value) {
        Some(reply) => {
            proof {
                let id = request_id(value@);
                let method = request_method(value@);
                lemma_member_is_canonical(value@, "id"@);
                lemma_refusal_is_canonical(id, method);
                if json::reads_back(id, (json::MAX_DEPTH - 1) as nat) {
                    lemma_refusal_reads_back(id, method);
                }
            }
            Some(json::to_bytes(reply))
        },
        None => None,
    }
}

/// A message of the protocol library.
#[verifier::external_type_specification]
#[verifier::external_body]
pub struct ExTransportMessage(pmcp::shared::TransportMessage);

/// True when the protocol library knows the message that a line holds.
pub uninterp spec fn is_supported(line: Seq<u8>) -> bool;

/// True for a message that the protocol library has read from a line.
pub uninterp spec fn is_read_from(message: pmcp::shared::TransportMessage, line: Seq<u8>) -> bool;

/// Calls `pmcp::shared::transport::parse_message`. Whether it succeeds depends on the bytes alone,
/// and it does not where `serde_json::from_slice` reads no value from them. A message that it gives
/// is one that it has read from these bytes; nothing else is said of what the message holds.
#[verifier::external_body]
fn parse_message(line: &[u8]) -> (result: Result<pmcp::shared::TransportMessage, String>)
    ensures
        result is Ok <==> is_supported(line@),
        result is Ok ==> json::document_of_bytes(line@) is Some,
        result matches Ok(message) ==> is_read_from(message, line@),
{
    pmcp::shared::transport::parse_message(line).map_err(|error| error.to_string())
}

/// What a line of the input comes to.
#[derive(Debug)]
pub enum Received {
    /// A message for the server.
    Message(pmcp::shared::TransportMessage),
    /// A request that is refused with these bytes.
    Refused(Vec<u8>),
    /// Nothing: the text says why.
    Ignored(String),
}

/// What becomes of a line that the protocol library does not know, for the reason that it gives.
pub fn refuse(line: &[u8], reason: String) -> (received: Received)
    ensures
        !(received is Message),
        received is Refused <==> json::document_of_bytes(line@) is Some && wants_answer(
            json::document_of_bytes(line@)->0,
        ),
        received matches Received::Refused(bytes) ==> ({
            let value = json::document_of_bytes(line@)->0;
            &&& bytes@ == json::json_bytes(
                json::canonical(refusal(request_id(value), request_method(value))),
            )
            &&& json::reads_back(request_id(value), (json::MAX_DEPTH - 1) as nat)
                ==> json::document_of_bytes(bytes@) == Some(
                refusal(request_id(value), request_method(value)),
            )
        }),
        received matches Received::Ignored(text) ==> text@ == reason@,
{
    match method_not_found_response(line) {
        Some(bytes) => Received::Refused(bytes),
        None => Received::Ignored(reason),
    }
}

/// What a line of the input comes to: a message, the refusal of a request that the protocol
/// library does not know, or nothing.
pub fn receive(line: &[u8]) -> (received: Received)
    ensures
        received is Message <==> is_supported(line@),
        received matches Received::Message(message) ==> is_read_from(message, line@),
        received is Refused <==> !is_supported(line@) && json::document_of_bytes(line@) is Some
            && wants_answer(json::document_of_bytes(line@)->0),
        received matches Received::Refused(bytes) ==> ({
            let value = json::document_of_bytes(line@)->0;
            &&& bytes@ == json::json_bytes(
                json::canonical(refusal(request_id(value), request_method(value))),
            )
            &&& json::reads_back(request_id(value), (json::MAX_DEPTH - 1) as nat)
                ==> json::document_of_bytes(bytes@) == Some(
                refusal(request_id(value), request_method(value)),
            )
        }),
        json::document_of_bytes(line@) is None ==> received is Ignored,
{
    match parse_message(line) {
        Ok(message) => Received::Message(message),
        Err(reason) => refuse(line, reason),
    }
}

/// The place of the first line feed, or the number of bytes.
pub open spec fn line_end(bytes: Seq<u8>) -> nat
    decreases bytes.len(),
{
    if bytes.len() == 0 || bytes[0] == LINE_FEED {
        0
    } else {
        1 + line_end(bytes.skip(1))
    }
}

/// A line without the carriage return at its end.
pub open spec fn bare_line(line: Seq<u8>) -> Seq<u8> {
    if line.len() > 0 && line.last() == CARRIAGE_RETURN {
        line.drop_last()
    } else {
        line
    }
}

/// The first line that is not empty, where it is complete, and the bytes that follow it.
pub open spec fn next_line(bytes: Seq<u8>) -> (Option<Seq<u8>>, Seq<u8>)
    decreases bytes.len(),
{
    let end = line_end(bytes) as int;
    if end >= bytes.len() {
        (None, bytes)
    } else {
        let line = bare_line(bytes.take(end));
        let rest = bytes.skip(end + 1);
        if line.len() > 0 {
            (Some(line), rest)
        } else {
            next_line(rest)
        }
    }
}

/// All complete lines that are not empty.
pub open spec fn lines_in(bytes: Seq<u8>) -> Seq<Seq<u8>>
    decreases bytes.len(),
{
    let end = line_end(bytes) as int;
    if end >= bytes.len() {
        Seq::empty()
    } else {
        let line = bare_line(bytes.take(end));
        let rest = lines_in(bytes.skip(end + 1));
        if line.len() > 0 {
            seq![line] + rest
        } else {
            rest
        }
    }
}

/// The bytes behind the last complete line.
pub open spec fn rest_in(bytes: Seq<u8>) -> Seq<u8>
    decreases bytes.len(),
{
    let end = line_end(bytes) as int;
    if end >= bytes.len() {
        bytes
    } else {
        rest_in(bytes.skip(end + 1))
    }
}

/// What follows a complete line does not move its end.
proof fn lemma_line_end_of_start(start: Seq<u8>, rest: Seq<u8>)
    requires
        line_end(start) < start.len(),
    ensures
        line_end(start + rest) == line_end(start),
    decreases start.len(),
{
    if start[0] != LINE_FEED {
        assert((start + rest).skip(1) =~= start.skip(1) + rest);
        lemma_line_end_of_start(start.skip(1), rest);
    }
}

/// The lines that come in do not depend on where the input is cut: reading the complete lines of
/// a first part, and then those of what is left of it with the second part, gives the lines of
/// both parts together, and leaves the same.
pub proof fn law_lines_do_not_depend_on_chunks(first: Seq<u8>, second: Seq<u8>)
    ensures
        lines_in(first + second) == lines_in(first) + lines_in(rest_in(first) + second),
        rest_in(first + second) == rest_in(rest_in(first) + second),
    decreases first.len(),
{
    let end = line_end(first) as int;
    if end >= first.len() {
        assert(lines_in(first) + lines_in(first + second) =~= lines_in(first + second));
    } else {
        let all = first + second;
        lemma_line_end_of_start(first, second);
        assert(all.take(end) =~= first.take(end));
        assert(all.skip(end + 1) =~= first.skip(end + 1) + second);
        law_lines_do_not_depend_on_chunks(first.skip(end + 1), second);
        let later = lines_in(first.skip(end + 1));
        let line = bare_line(first.take(end));
        if line.len() > 0 {
            assert(lines_in(all) =~= seq![line] + later + lines_in(rest_in(first) + second));
            assert(lines_in(first) + lines_in(rest_in(first) + second) =~= seq![line] + later
                + lines_in(rest_in(first) + second));
        }
    }
}

/// Reading line after line gives all complete lines: each read gives the first of them and leaves
/// the others.
pub proof fn law_reads_give_all_lines(bytes: Seq<u8>)
    ensures
        match next_line(bytes).0 {
            Some(line) => {
                &&& lines_in(bytes) == seq![line] + lines_in(next_line(bytes).1)
                &&& rest_in(bytes) == rest_in(next_line(bytes).1)
            },
            None => lines_in(bytes) == Seq::<Seq<u8>>::empty() && rest_in(bytes) == next_line(
                bytes,
            ).1,
        },
    decreases bytes.len(),
{
    let end = line_end(bytes) as int;
    if end < bytes.len() {
        let line = bare_line(bytes.take(end));
        if line.len() == 0 {
            law_reads_give_all_lines(bytes.skip(end + 1));
        }
    }
}

/// The input that has come so far and is not read yet, and whether the connection is closed.
#[derive(Debug)]
pub struct DiscoveryAwareStdioTransport {
    pub partial: Vec<u8>,
    pub closed: bool,
}

impl DiscoveryAwareStdioTransport {
    /// An open connection on which nothing has come in.
    pub fn new() -> (transport: DiscoveryAwareStdioTransport)
        ensures
            transport.partial@ == Seq::<u8>::empty(),
            !transport.closed,
    {
        DiscoveryAwareStdioTransport { partial: Vec::new(), closed: false }
    }

    /// Takes the bytes of a read into account. A read without any means that the input has ended,
    /// which closes the connection; what is left of a line is kept.
    pub fn feed(&mut self, bytes: &Vec<u8>)
        ensures
            final(self).partial@ == old(self).partial@ + bytes@,
            final(self).closed == (old(self).closed || bytes@.len() == 0),
    {
        if bytes.len() == 0 {
            self.closed = true;
        }
        self.partial.extend_from_slice(bytes.as_slice());
        assert(self.partial@ =~= old(self).partial@ + bytes@);
    }

    /// The next line that is not empty, where it is complete.
    pub fn read_line(&mut self) -> (line: Option<Vec<u8>>)
        ensures
            match line {
                Some(bytes) => next_line(old(self).partial@) == (
                    Some(bytes@),
                    final(self).partial@,
                ),
                None => next_line(old(self).partial@) == (None::<Seq<u8>>, final(self).partial@),
            },
            final(self).closed == old(self).closed,
    {
        loop
            invariant
                next_line(self.partial@) == next_line(old(self).partial@),
                self.closed == old(self).closed,
            decreases self.partial@.len(),
        {
            let ghost bytes = self.partial@;
            let count: usize = self.partial.len();
            let mut end: usize = 0;
            assert(bytes.skip(0) =~= bytes);
            while end < count && self.partial[end] != LINE_FEED
                invariant
                    end <= count == self.partial@.len(),
                    bytes == self.partial@,
                    line_end(bytes) == end + line_end(bytes.skip(end as int)),
                decreases count - end,
            {
                assert(bytes.skip(end as int).skip(1) =~= bytes.skip(end + 1));
                end += 1;
            }
            if end >= count {
                return None;
            }
            let rest = self.partial.split_off(end + 1);
            assert(rest@ =~= bytes.skip(end + 1));
            let mut line: Vec<u8> = Vec::new();
            std::mem::swap(&mut line, &mut self.partial);
            self.partial = rest;
            let _ = line.pop();
            assert(line@ =~= bytes.take(end as int));
            if line.len() > 0 && line[line.len() - 1] == CARRIAGE_RETURN {
                let _ = line.pop();
            }
            assert(line@ =~= bare_line(bytes.take(end as int)));
            if line.len() > 0 {
                return Some(line);
            }
        }
    }

    /// Closes the connection.
    pub fn close(&mut self)
        ensures
            final(self).closed,
            final(self).partial@ == old(self).partial@,
    {
        self.closed = true;
    }

    /// True while the connection is open.
    pub fn is_connected(&self) -> (connected: bool)
        ensures
            connected == !self.closed,
    {
        !self.closed
    }

    /// The kind of the connection.
    pub fn transport_type(&self) -> (kind: &'static str)
        ensures
            kind@ == "stdio"@,
    {
        "stdio"
    }
}

/// Notifications, which have no identifier, are never answered.
pub proof fn law_notifications_are_never_answered(value: JsonView)
    requires
        json::member(value, "id"@) is None,
    ensures
        !wants_answer(value),
{
}

/// A refusal names the version of the protocol, has the identifier of the request, whatever it is,
/// and says with the code for it which method is not there.
pub proof fn law_refusals_name_request_and_method(id: JsonView, method: Seq<char>)
    ensures
        ({
            let value = refusal(id, method);
            &&& json::member(value, "jsonrpc"@) == Some(JsonView::Text("2.0"@))
            &&& json::member(value, "id"@) == Some(id)
            &&& json::member(value, "result"@) is None
            &&& match json::member(value, "error"@) {
                Some(error) => {
                    &&& json::member(error, "code"@) == Some(JsonView::Integer(-32601))
                    &&& json::member(error, "message"@) == Some(
                        JsonView::Text("Method not found: "@ + method),
                    )
                },
                None => false,
            }
        }),
{
    reveal_strlit("jsonrpc");
    reveal_strlit("id");
    reveal_strlit("error");
    reveal_strlit("result");
    reveal_strlit("code");
    reveal_strlit("message");
    assert("jsonrpc"@.len() == 7);
    assert("id"@.len() == 2);
    assert("error"@.len() == 5);
    assert("result"@.len() == 6);
    assert("code"@.len() == 4);
    assert("message"@.len() == 7);
    assert("jsonrpc"@[0] == 'j');
    assert("message"@[0] == 'm');
    let members = refusal(id, method)->Object_0;
    let error = members[2].1->Object_0;
    json::law_first_member_is_found(members, 0);
    json::law_first_member_is_found(members, 1);
    json::law_first_member_is_found(members, 2);
    json::law_first_member_is_found(error, 0);
    json::law_first_member_is_found(error, 1);
    json::law_missing_members_are_not_found(refusal(id, method), "result"@);
}

/// A document wants an answer exactly when it has a string for its method and an identifier that is
/// not null; the answer is then about that method and for that identifier.
pub proof fn law_requests_want_an_answer(value: JsonView)
    ensures
        wants_answer(value) <==> (match json::member(value, "method"@) {
            Some(JsonView::Text(_)) => true,
            _ => false,
        }) && (match json::member(value, "id"@) {
            Some(JsonView::Null) => false,
            Some(_) => true,
            None => false,
        }),
        wants_answer(value) ==> json::member(value, "id"@) == Some(request_id(value)),
        wants_answer(value) ==> json::member(value, "method"@) == Some(
            JsonView::Text(request_method(value)),
        ),
{
}

/// The first line feed ends the first line.
proof fn lemma_line_end_is_first(line: Seq<u8>, rest: Seq<u8>)
    requires
        forall|i: int| 0 <= i < line.len() ==> #[trigger] line[i] != 10,
    ensures
        line_end(line + seq![10u8] + rest) == line.len(),
        line_end(line) == line.len(),
    decreases line.len(),
{
    let all = line + seq![10u8] + rest;
    if line.len() == 0 {
        assert(all[0] == 10);
    } else {
        assert(all[0] == line[0]);
        let tail = line.skip(1);
        assert forall|i: int| 0 <= i < tail.len() implies #[trigger] tail[i] != 10 by {
            assert(tail[i] == line[i + 1]);
        }
        lemma_line_end_is_first(tail, rest);
        assert(all.skip(1) =~= tail + seq![10u8] + rest);
    }
}

/// A line ends at a line feed, and a carriage return right in front of it does not belong to the
/// line. A line that holds nothing else is passed over; what follows the line feed is read for
/// itself. Without a line feed there is no line, and all bytes are left.
pub proof fn law_lines_end_at_line_feeds(line: Seq<u8>, rest: Seq<u8>)
    requires
        forall|i: int| 0 <= i < line.len() ==> #[trigger] line[i] != 10,
    ensures
        ({
            let all = line + seq![10u8] + rest;
            let bare = if line.len() > 0 && line[line.len() - 1] == 13 {
                line.take(line.len() - 1)
            } else {
                line
            };
            &&& bare.len() == 0 ==> lines_in(all) == lines_in(rest) && next_line(all) == next_line(
                rest,
            )
            &&& bare.len() > 0 ==> lines_in(all) == seq![bare] + lines_in(rest) && next_line(all)
                == (Some(bare), rest)
            &&& rest_in(all) == rest_in(rest)
        }),
        lines_in(line).len() == 0,
        next_line(line) == (None::<Seq<u8>>, line),
        rest_in(line) == line,
{
    let all = line + seq![10u8] + rest;
    lemma_line_end_is_first(line, rest);
    assert(all.take(line.len() as int) =~= line);
    assert(all.skip(line.len() as int + 1) =~= rest);
    if line.len() > 0 {
        assert(line.drop_last() =~= line.take(line.len() - 1));
    }
}

/// A line that the protocol library knows is a message. Any other one is refused exactly where it is
/// a document with a method and an identifier that is not null; else it is passed over.
pub proof fn law_unknown_requests_are_refused(line: &[u8], received: Received)
    requires
        call_ensures(receive, (line,), received),
    ensures
        is_supported(line@) ==> received is Message,
        !is_supported(line@) ==> match json::document_of_bytes(line@) {
            None => received is Ignored,
            Some(value) => {
                let named = json::member(value, "method"@) is Some && json::member(
                    value,
                    "method"@,
                )->Some_0 is Text;
                let identified = json::member(value, "id"@) is Some && !(json::member(
                    value,
                    "id"@,
                )->Some_0 is Null);
                &&& named && identified ==> received is Refused
                &&& !named || !identified ==> received is Ignored
            },
        },
{
}

} // verus!
