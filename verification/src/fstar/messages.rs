//! The values that messages of the F* IDE protocol carry.
use crate::json::{self, Json, JsonView};
use crate::text;
use vstd::prelude::*;

verus! {

/// A range of a source file; positions are a line and a column.
#[derive(Debug, PartialEq, Eq)]
pub struct FStarRange {
    pub fname: String,
    pub beg: (u32, u32),
    pub end: (u32, u32),
}

/// The model of a range.
pub struct FStarRangeView {
    pub fname: Seq<char>,
    pub beg: (u32, u32),
    pub end: (u32, u32),
}

impl View for FStarRange {
    type V = FStarRangeView;

    open spec fn view(&self) -> FStarRangeView {
        FStarRangeView { fname: self.fname@, beg: self.beg, end: self.end }
    }
}

/// The models of a list of ranges.
pub open spec fn ranges_view(ranges: Seq<FStarRange>) -> Seq<FStarRangeView> {
    Seq::new(ranges.len(), |i: int| ranges[i]@)
}

/// The model of an optional range.
pub open spec fn opt_range(range: Option<FStarRange>) -> Option<FStarRangeView> {
    match range {
        Some(r) => Some(r@),
        None => None,
    }
}

/// What the process says of itself when it starts.
#[derive(Debug)]
pub struct ProtocolInfo {
    pub version: i32,
    pub features: Vec<String>,
}

/// The model of what the process says of itself.
pub struct ProtocolInfoView {
    pub version: i32,
    pub features: Seq<Seq<char>>,
}

impl View for ProtocolInfo {
    type V = ProtocolInfoView;

    open spec fn view(&self) -> ProtocolInfoView {
        ProtocolInfoView { version: self.version, features: text::texts(self.features@) }
    }
}

/// The answer to a query.
#[derive(Debug)]
pub struct IdeResponseBase {
    pub query_id: String,
    pub status: Option<String>,
    pub response: Option<Json>,
}

/// The model of an answer.
pub struct IdeResponseView {
    pub query_id: Seq<char>,
    pub status: Option<Seq<char>>,
    pub response: Option<JsonView>,
}

impl View for IdeResponseBase {
    type V = IdeResponseView;

    open spec fn view(&self) -> IdeResponseView {
        IdeResponseView {
            query_id: self.query_id@,
            status: text::opt_text(self.status),
            response: json::opt_json(self.response),
        }
    }
}

/// An error, a warning or a note, with the number of its kind and the ranges that it is about.
#[derive(Debug)]
pub struct IdeDiagnostic {
    pub message: String,
    pub number: Option<i32>,
    pub level: String,
    pub ranges: Vec<FStarRange>,
}

/// The model of a diagnostic.
pub struct IdeDiagnosticView {
    pub message: Seq<char>,
    pub number: Option<i32>,
    pub level: Seq<char>,
    pub ranges: Seq<FStarRangeView>,
}

impl View for IdeDiagnostic {
    type V = IdeDiagnosticView;

    open spec fn view(&self) -> IdeDiagnosticView {
        IdeDiagnosticView {
            message: self.message@,
            number: self.number,
            level: self.level@,
            ranges: ranges_view(self.ranges@),
        }
    }
}

/// The models of a list of diagnostics.
pub open spec fn diagnostics_view(diagnostics: Seq<IdeDiagnostic>) -> Seq<IdeDiagnosticView> {
    Seq::new(diagnostics.len(), |i: int| diagnostics[i]@)
}

/// The state of a proof: where it was taken, and the message that describes it.
#[derive(Debug)]
pub struct IdeProofState {
    pub location: FStarRange,
    pub contents: Json,
}

/// The model of the state of a proof.
pub struct IdeProofStateView {
    pub location: FStarRangeView,
    pub contents: JsonView,
}

impl View for IdeProofState {
    type V = IdeProofStateView;

    open spec fn view(&self) -> IdeProofStateView {
        IdeProofStateView { location: self.location@, contents: self.contents@ }
    }
}

/// The models of a list of proof states.
pub open spec fn proof_states_view(states: Seq<IdeProofState>) -> Seq<IdeProofStateView> {
    Seq::new(states.len(), |i: int| states[i]@)
}

/// What a lookup says of a symbol.
#[derive(Debug)]
pub struct IdeSymbol {
    pub name: String,
    pub type_info: Option<String>,
    pub documentation: Option<String>,
    pub defined_at: Option<FStarRange>,
}

/// What a lookup says of a module.
#[derive(Debug)]
pub struct IdeModule {
    pub name: String,
    pub path: String,
}

/// The result of a lookup.
#[derive(Debug)]
pub enum IdeLookupResponse {
    Symbol(IdeSymbol),
    Module(IdeModule),
}

/// The model of the result of a lookup.
pub enum IdeLookupView {
    Symbol {
        name: Seq<char>,
        type_info: Option<Seq<char>>,
        documentation: Option<Seq<char>>,
        defined_at: Option<FStarRangeView>,
    },
    Module { name: Seq<char>, path: Seq<char> },
}

impl View for IdeLookupResponse {
    type V = IdeLookupView;

    open spec fn view(&self) -> IdeLookupView {
        match *self {
            IdeLookupResponse::Symbol(symbol) => IdeLookupView::Symbol {
                name: symbol.name@,
                type_info: text::opt_text(symbol.type_info),
                documentation: text::opt_text(symbol.documentation),
                defined_at: opt_range(symbol.defined_at),
            },
            IdeLookupResponse::Module(module) => IdeLookupView::Module {
                name: module.name@,
                path: module.path@,
            },
        }
    }
}

/// The integer of a value, where it is within bounds.
pub open spec fn bounded_in(value: JsonView, low: int, high: int) -> Option<int> {
    match value {
        JsonView::Integer(number) => if low <= number <= high {
            Some(number)
        } else {
            None
        },
        _ => None,
    }
}

/// A position: an array of a line and a column.
pub open spec fn position_in(value: JsonView) -> Option<(u32, u32)> {
    match value {
        JsonView::Array(items) => if items.len() == 2 {
            match (
                bounded_in(items[0], 0, u32::MAX as int),
                bounded_in(items[1], 0, u32::MAX as int),
            ) {
                (Some(line), Some(column)) => Some((line as u32, column as u32)),
                _ => None,
            }
        } else {
            None
        },
        _ => None,
    }
}

/// The position in the member `key`.
pub open spec fn position_member(value: JsonView, key: Seq<char>) -> Option<(u32, u32)> {
    match json::member(value, key) {
        Some(found) => position_in(found),
        None => None,
    }
}

/// A range: an object with a file name and two positions.
pub open spec fn range_in(value: JsonView) -> Option<FStarRangeView> {
    match (
        json::string_member(value, "fname"@),
        position_member(value, "beg"@),
        position_member(value, "end"@),
    ) {
        (Some(fname), Some(beg), Some(end)) => Some(FStarRangeView { fname, beg, end }),
        _ => None,
    }
}

/// A string that may be missing or null; none at all where it is something else.
pub open spec fn optional_string(field: Option<JsonView>) -> Option<Option<Seq<char>>> {
    match field {
        None => Some(None),
        Some(JsonView::Null) => Some(None),
        Some(JsonView::Text(string)) => Some(Some(string)),
        Some(_) => None,
    }
}

/// A 32-bit integer that may be missing or null; none at all where it is something else.
pub open spec fn optional_number(field: Option<JsonView>) -> Option<Option<i32>> {
    match field {
        None => Some(None),
        Some(JsonView::Null) => Some(None),
        Some(value) => match bounded_in(value, i32::MIN as int, i32::MAX as int) {
            Some(number) => Some(Some(number as i32)),
            None => None,
        },
    }
}

/// A range that may be missing or null; none at all where it is something else.
pub open spec fn optional_range(field: Option<JsonView>) -> Option<Option<FStarRangeView>> {
    match field {
        None => Some(None),
        Some(JsonView::Null) => Some(None),
        Some(value) => match range_in(value) {
            Some(range) => Some(Some(range)),
            None => None,
        },
    }
}

/// The ranges of an array of ranges.
pub open spec fn ranges_in(value: JsonView) -> Option<Seq<FStarRangeView>> {
    match value {
        JsonView::Array(items) => if forall|i: int|
            0 <= i < items.len() ==> range_in(#[trigger] items[i]) is Some {
            Some(Seq::new(items.len(), |i: int| range_in(items[i])->0))
        } else {
            None
        },
        _ => None,
    }
}

/// A diagnostic: an object with a message, a level and ranges, and possibly a number.
pub open spec fn diagnostic_in(value: JsonView) -> Option<IdeDiagnosticView> {
    let ranges = match json::member(value, "ranges"@) {
        Some(found) => ranges_in(found),
        None => None,
    };
    match (
        json::string_member(value, "message"@),
        optional_number(json::member(value, "number"@)),
        json::string_member(value, "level"@),
        ranges,
    ) {
        (Some(message), Some(number), Some(level), Some(ranges)) => Some(
            IdeDiagnosticView { message, number, level, ranges },
        ),
        _ => None,
    }
}

/// The diagnostics of an array of diagnostics.
pub open spec fn diagnostics_in(value: JsonView) -> Option<Seq<IdeDiagnosticView>> {
    match value {
        JsonView::Array(items) => if forall|i: int|
            0 <= i < items.len() ==> diagnostic_in(#[trigger] items[i]) is Some {
            Some(Seq::new(items.len(), |i: int| diagnostic_in(items[i])->0))
        } else {
            None
        },
        _ => None,
    }
}

/// The state of a proof: any value with a location.
pub open spec fn proof_state_in(value: JsonView) -> Option<IdeProofStateView> {
    match json::member(value, "location"@) {
        Some(found) => match range_in(found) {
            Some(location) => Some(IdeProofStateView { location, contents: value }),
            None => None,
        },
        None => None,
    }
}

/// True for the message with which the process starts.
pub open spec fn is_protocol_info(value: JsonView) -> bool {
    json::string_member(value, "kind"@) == Some("protocol-info"@)
}

/// What the process says of itself.
pub open spec fn protocol_info_in(value: JsonView) -> Option<ProtocolInfoView> {
    let version = match json::member(value, "version"@) {
        Some(found) => bounded_in(found, i32::MIN as int, i32::MAX as int),
        None => None,
    };
    let features = match json::member(value, "features"@) {
        Some(found) => json::strings_in(found),
        None => None,
    };
    match (version, features) {
        (Some(version), Some(features)) => Some(
            ProtocolInfoView { version: version as i32, features },
        ),
        _ => None,
    }
}

/// The answer to a query: an object with the query's name, and possibly a status and a response.
pub open spec fn answer_in(value: JsonView) -> Option<IdeResponseView> {
    match (
        json::string_member(value, "query-id"@),
        optional_string(json::member(value, "status"@)),
    ) {
        (Some(query_id), Some(status)) => Some(
            IdeResponseView {
                query_id,
                status,
                response: match json::member(value, "response"@) {
                    Some(JsonView::Null) => None,
                    other => other,
                },
            },
        ),
        _ => None,
    }
}

/// The result of a lookup, by its kind.
pub open spec fn lookup_in(value: JsonView) -> Option<IdeLookupView> {
    let kind = json::string_member(value, "kind"@);
    if kind == Some("symbol"@) {
        match (
            json::string_member(value, "name"@),
            optional_string(json::member(value, "type"@)),
            optional_string(json::member(value, "documentation"@)),
            optional_range(json::member(value, "defined-at"@)),
        ) {
            (Some(name), Some(type_info), Some(documentation), Some(defined_at)) => Some(
                IdeLookupView::Symbol { name, type_info, documentation, defined_at },
            ),
            _ => None,
        }
    } else if kind == Some("module"@) {
        match (json::string_member(value, "name"@), json::string_member(value, "path"@)) {
            (Some(name), Some(path)) => Some(IdeLookupView::Module { name, path }),
            _ => None,
        }
    } else {
        None
    }
}

/// The model of an optional borrowed value.
pub open spec fn opt_field(field: Option<&Json>) -> Option<JsonView> {
    match field {
        Some(value) => Some(value@),
        None => None,
    }
}

/// Reads an integer within bounds.
fn read_bounded(value: &Json, low: i128, high: i128) -> (found: Option<i128>)
    ensures
        match found {
            Some(number) => bounded_in(value@, low as int, high as int) == Some(number as int),
            None => bounded_in(value@, low as int, high as int) is None,
        },
{
    match value {
        Json::Integer(number) => if low <= *number && *number <= high {
            Some(*number)
        } else {
            None
        },
        _ => None,
    }
}

/// Reads a position.
fn read_position(field: Option<&Json>) -> (found: Option<(u32, u32)>)
    ensures
        found == match opt_field(field) {
            Some(value) => position_in(value),
            None => None,
        },
{
    match field {
        Some(value) => match value {
            Json::Array(items) => {
                assert(value@->Array_0 =~= json::items_view(items@));
                if items.len() != 2 {
                    return None;
                }
                let line = read_bounded(&items[0], 0, u32::MAX as i128);
                let column = read_bounded(&items[1], 0, u32::MAX as i128);
                match (line, column) {
                    (Some(line), Some(column)) => Some((line as u32, column as u32)),
                    _ => None,
                }
            },
            _ => None,
        },
        None => None,
    }
}

/// Reads a range.
pub fn decode_range(value: &Json) -> (found: Option<FStarRange>)
    ensures
        opt_range(found) == range_in(value@),
{
    let fname = value.string_member("fname");
    let beg = read_position(value.get("beg"));
    let end = read_position(value.get("end"));
    match (fname, beg, end) {
        (Some(fname), Some(beg), Some(end)) => Some(FStarRange { fname, beg, end }),
        _ => None,
    }
}

/// Reads a string that may be missing or null.
fn read_optional_string(field: Option<&Json>) -> (found: Option<Option<String>>)
    ensures
        match found {
            Some(string) => optional_string(opt_field(field)) == Some(text::opt_text(string)),
            None => optional_string(opt_field(field)) is None,
        },
{
    match field {
        None => Some(None),
        Some(value) => match value {
            Json::Null => Some(None),
            Json::Text(string) => Some(Some(string.clone())),
            _ => None,
        },
    }
}

/// Reads a number that may be missing or null.
fn read_optional_number(field: Option<&Json>) -> (found: Option<Option<i32>>)
    ensures
        found == optional_number(opt_field(field)),
{
    match field {
        None => Some(None),
        Some(value) => match value {
            Json::Null => Some(None),
            _ => match read_bounded(value, i32::MIN as i128, i32::MAX as i128) {
                Some(number) => Some(Some(number as i32)),
                None => None,
            },
        },
    }
}

/// Reads a range that may be missing or null.
fn read_optional_range(field: Option<&Json>) -> (found: Option<Option<FStarRange>>)
    ensures
        match found {
            Some(range) => optional_range(opt_field(field)) == Some(opt_range(range)),
            None => optional_range(opt_field(field)) is None,
        },
{
    match field {
        None => Some(None),
        Some(value) => match value {
            Json::Null => Some(None),
            _ => match decode_range(value) {
                Some(range) => Some(Some(range)),
                None => None,
            },
        },
    }
}

/// Reads an array of ranges.
fn read_ranges(value: &Json) -> (found: Option<Vec<FStarRange>>)
    ensures
        match found {
            Some(ranges) => ranges_in(value@) == Some(ranges_view(ranges@)),
            None => ranges_in(value@) is None,
        },
{
    match value {
        Json::Array(items) => {
            let ghost all = json::items_view(items@);
            assert(value@->Array_0 =~= all);
            let mut ranges: Vec<FStarRange> = Vec::new();
            let mut index: usize = 0;
            while index < items.len()
                invariant
                    index <= items@.len(),
                    all == json::items_view(items@),
                    value@ == JsonView::Array(all),
                    ranges@.len() == index,
                    forall|i: int|
                        0 <= i < index ==> range_in(#[trigger] all[i]) == Some(ranges@[i]@),
                decreases items@.len() - index,
            {
                assert(all[index as int] == items@[index as int]@);
                match decode_range(&items[index]) {
                    Some(range) => ranges.push(range),
                    None => {
                        assert(range_in(all[index as int]) is None);
                        return None;
                    },
                }
                index += 1;
            }
            assert(ranges_view(ranges@) =~= Seq::new(all.len(), |i: int| range_in(all[i])->0));
            Some(ranges)
        },
        _ => None,
    }
}

/// Reads a diagnostic.
pub fn decode_diagnostic(value: &Json) -> (found: Option<IdeDiagnostic>)
    ensures
        match found {
            Some(diagnostic) => diagnostic_in(value@) == Some(diagnostic@),
            None => diagnostic_in(value@) is None,
        },
{
    let message = value.string_member("message");
    let number = read_optional_number(value.get("number"));
    let level = value.string_member("level");
    let ranges = match value.get("ranges") {
        Some(list) => read_ranges(list),
        None => None,
    };
    match (message, number, level, ranges) {
        (Some(message), Some(number), Some(level), Some(ranges)) => {
            Some(IdeDiagnostic { message, number, level, ranges })
        },
        _ => None,
    }
}

/// Reads an array of diagnostics.
pub fn decode_diagnostics(value: &Json) -> (found: Option<Vec<IdeDiagnostic>>)
    ensures
        match found {
            Some(diagnostics) => diagnostics_in(value@) == Some(diagnostics_view(diagnostics@)),
            None => diagnostics_in(value@) is None,
        },
{
    match value {
        Json::Array(items) => {
            let ghost all = json::items_view(items@);
            assert(value@->Array_0 =~= all);
            let mut diagnostics: Vec<IdeDiagnostic> = Vec::new();
            let mut index: usize = 0;
            while index < items.len()
                invariant
                    index <= items@.len(),
                    all == json::items_view(items@),
                    value@ == JsonView::Array(all),
                    diagnostics@.len() == index,
                    forall|i: int|
                        0 <= i < index ==> diagnostic_in(#[trigger] all[i]) == Some(
                            diagnostics@[i]@,
                        ),
                decreases items@.len() - index,
            {
                assert(all[index as int] == items@[index as int]@);
                match decode_diagnostic(&items[index]) {
                    Some(diagnostic) => diagnostics.push(diagnostic),
                    None => {
                        assert(diagnostic_in(all[index as int]) is None);
                        return None;
                    },
                }
                index += 1;
            }
            assert(diagnostics_view(diagnostics@) =~= Seq::new(
                all.len(),
                |i: int| diagnostic_in(all[i])->0,
            ));
            Some(diagnostics)
        },
        _ => None,
    }
}

/// Reads the state of a proof.
pub fn decode_proof_state(value: Json) -> (found: Option<IdeProofState>)
    ensures
        match found {
            Some(state) => proof_state_in(value@) == Some(state@),
            None => proof_state_in(value@) is None,
        },
{
    let location = match value.get("location") {
        Some(range) => decode_range(range),
        None => None,
    };
    match location {
        Some(location) => Some(IdeProofState { location, contents: value }),
        None => None,
    }
}

impl ProtocolInfo {
    /// True for the message with which the process starts.
    pub fn is_protocol_info(value: &Json) -> (result: bool)
        ensures
            result == is_protocol_info(value@),
    {
        match value.string_member("kind") {
            Some(kind) => text::same(kind.as_str(), "protocol-info"),
            None => false,
        }
    }

    /// Reads what the process says of itself.
    pub fn decode(value: &Json) -> (found: Option<ProtocolInfo>)
        ensures
            match found {
                Some(info) => protocol_info_in(value@) == Some(info@),
                None => protocol_info_in(value@) is None,
            },
    {
        let version = match value.get("version") {
            Some(number) => read_bounded(number, i32::MIN as i128, i32::MAX as i128),
            None => None,
        };
        let features = match value.get("features") {
            Some(list) => json::decode_strings(list),
            None => None,
        };
        match (version, features) {
            (Some(version), Some(features)) => {
                Some(ProtocolInfo { version: version as i32, features })
            },
            _ => None,
        }
    }

    /// True when whole buffers can be checked.
    pub fn supports_full_buffer(&self) -> (result: bool)
        ensures
            result == self@.features.contains("full-buffer"@),
    {
        text::list_contains(&self.features, "full-buffer")
    }
}

impl IdeResponseBase {
    /// Reads the answer to a query.
    pub fn decode(value: Json) -> (found: Option<IdeResponseBase>)
        ensures
            match found {
                Some(answer) => answer_in(value@) == Some(answer@),
                None => answer_in(value@) is None,
            },
    {
        let query_id = value.string_member("query-id");
        let status = read_optional_string(value.get("status"));
        match (query_id, status) {
            (Some(query_id), Some(status)) => {
                let response = match value.take("response") {
                    Some(Json::Null) => None,
                    other => other,
                };
                Some(IdeResponseBase { query_id, status, response })
            },
            _ => None,
        }
    }
}

impl IdeLookupResponse {
    /// Reads the result of a lookup.
    pub fn decode(value: &Json) -> (found: Option<IdeLookupResponse>)
        ensures
            match found {
                Some(result) => lookup_in(value@) == Some(result@),
                None => lookup_in(value@) is None,
            },
    {
        let kind = match value.string_member("kind") {
            Some(kind) => kind,
            None => {
                return None;
            },
        };
        if text::same(kind.as_str(), "symbol") {
            let name = value.string_member("name");
            let type_info = read_optional_string(value.get("type"));
            let documentation = read_optional_string(value.get("documentation"));
            let defined_at = read_optional_range(value.get("defined-at"));
            match (name, type_info, documentation, defined_at) {
                (Some(name), Some(type_info), Some(documentation), Some(defined_at)) => {
                    Some(
                        IdeLookupResponse::Symbol(
                            IdeSymbol { name, type_info, documentation, defined_at },
                        ),
                    )
                },
                _ => None,
            }
        } else if text::same(kind.as_str(), "module") {
            match (value.string_member("name"), value.string_member("path")) {
                (Some(name), Some(path)) => {
                    Some(IdeLookupResponse::Module(IdeModule { name, path }))
                },
                _ => None,
            }
        } else {
            None
        }
    }
}

impl FStarRange {
    /// A copy of the range.
    pub fn copy(&self) -> (copy: FStarRange)
        ensures
            copy@ == self@,
    {
        FStarRange { fname: self.fname.clone(), beg: self.beg, end: self.end }
    }

    /// True when both ranges are the same.
    pub fn same(&self, other: &FStarRange) -> (equal: bool)
        ensures
            equal == (self@ == other@),
    {
        text::same(self.fname.as_str(), other.fname.as_str()) && self.beg.0 == other.beg.0
            && self.beg.1 == other.beg.1 && self.end.0 == other.end.0 && self.end.1
            == other.end.1
    }
}

impl IdeProofState {
    /// A copy of the state.
    pub fn copy(&self) -> (copy: IdeProofState)
        ensures
            copy@ == self@,
    {
        IdeProofState { location: self.location.copy(), contents: self.contents.copy() }
    }
}

/// A position is an array of exactly a line and a column, both of 32 bits without a sign.
pub proof fn law_positions_are_read(items: Seq<JsonView>, line: int, column: int)
    ensures
        items.len() != 2 ==> position_in(JsonView::Array(items)) is None,
        items == seq![JsonView::Integer(line), JsonView::Integer(column)] ==> position_in(
            JsonView::Array(items),
        ) == (if 0 <= line < 0x1_0000_0000 && 0 <= column < 0x1_0000_0000 {
            Some((line as u32, column as u32))
        } else {
            None
        }),
        items.len() == 2 && !(items[0] is Integer && items[1] is Integer) ==> position_in(
            JsonView::Array(items),
        ) is None,
{
}

/// A range is read from its file name and its two positions, and from nothing less.
pub proof fn law_ranges_are_read(
    value: JsonView,
    fname: Seq<char>,
    beg: (u32, u32),
    end: (u32, u32),
)
    ensures
        json::member(value, "fname"@) == Some(JsonView::Text(fname)) && json::member(value, "beg"@)
            == Some(
            JsonView::Array(
                seq![JsonView::Integer(beg.0 as int), JsonView::Integer(beg.1 as int)],
            ),
        ) && json::member(value, "end"@) == Some(
            JsonView::Array(
                seq![JsonView::Integer(end.0 as int), JsonView::Integer(end.1 as int)],
            ),
        ) ==> range_in(value) == Some(FStarRangeView { fname, beg, end }),
        json::member(value, "fname"@) is None ==> range_in(value) is None,
        json::member(value, "beg"@) is None ==> range_in(value) is None,
        json::member(value, "end"@) is None ==> range_in(value) is None,
        json::member(value, "fname"@) matches Some(found) && !(found is Text) ==> range_in(value)
            is None,
        json::member(value, "beg"@) matches Some(found) && !(found is Array) ==> range_in(value)
            is None,
        json::member(value, "end"@) matches Some(found) && !(found is Array) ==> range_in(value)
            is None,
{
}

/// The ranges of a list are read, all of them in their order, where each one is a range.
pub proof fn law_all_ranges_are_read(items: Seq<JsonView>, at: int)
    ensures
        match ranges_in(JsonView::Array(items)) {
            Some(ranges) => ranges.len() == items.len() && (0 <= at < items.len() ==> range_in(
                items[at],
            ) == Some(ranges[at])),
            None => exists|i: int| 0 <= i < items.len() && range_in(#[trigger] items[i]) is None,
        },
{
}

/// A diagnostic is read from its message, its level and its ranges, with its number where it has
/// one; a number of more than 32 bits is none that can be read.
pub proof fn law_diagnostics_are_read(
    value: JsonView,
    message: Seq<char>,
    level: Seq<char>,
    items: Seq<JsonView>,
    number: int,
)
    requires
        json::member(value, "message"@) == Some(JsonView::Text(message)),
        json::member(value, "level"@) == Some(JsonView::Text(level)),
        json::member(value, "ranges"@) == Some(JsonView::Array(items)),
    ensures
        ranges_in(JsonView::Array(items)) is None ==> diagnostic_in(value) is None,
        ranges_in(JsonView::Array(items)) matches Some(ranges) ==> {
            &&& json::member(value, "number"@) is None || json::member(value, "number"@) == Some(
                JsonView::Null,
            ) ==> diagnostic_in(value) == Some(
                IdeDiagnosticView { message, number: None, level, ranges },
            )
            &&& json::member(value, "number"@) == Some(JsonView::Integer(number)) ==> diagnostic_in(
                value,
            ) == (if -0x8000_0000 <= number < 0x8000_0000 {
                Some(IdeDiagnosticView { message, number: Some(number as i32), level, ranges })
            } else {
                None
            })
            &&& json::member(value, "number"@) matches Some(JsonView::Text(_)) ==> diagnostic_in(
                value,
            ) is None
        },
{
}

/// What lacks a message, a level or ranges is no diagnostic.
pub proof fn law_incomplete_diagnostics_are_not_read(value: JsonView)
    requires
        json::member(value, "message"@) is None || json::member(value, "level"@) is None
            || json::member(value, "ranges"@) is None,
    ensures
        diagnostic_in(value) is None,
{
}

/// The diagnostics of a list are read, all of them in their order, where each one is a diagnostic;
/// what is no list holds none.
pub proof fn law_all_diagnostics_are_read(value: JsonView, at: int)
    ensures
        match value {
            JsonView::Array(items) => match diagnostics_in(value) {
                Some(found) => found.len() == items.len() && (0 <= at < items.len()
                    ==> diagnostic_in(items[at]) == Some(found[at])),
                None => exists|i: int|
                    0 <= i < items.len() && diagnostic_in(#[trigger] items[i]) is None,
            },
            _ => diagnostics_in(value) is None,
        },
{
}

/// The state of a proof is a whole value with the range under its location.
pub proof fn law_proof_states_are_read(value: JsonView, location: JsonView)
    ensures
        json::member(value, "location"@) is None ==> proof_state_in(value) is None,
        json::member(value, "location"@) == Some(location) ==> match range_in(location) {
            Some(range) => proof_state_in(value) == Some(
                IdeProofStateView { location: range, contents: value },
            ),
            None => proof_state_in(value) is None,
        },
{
}

/// The protocol information is told by its kind and read from its version and its features.
pub proof fn law_protocol_information_is_read(
    value: JsonView,
    version: int,
    features: Seq<Seq<char>>,
)
    requires
        json::member(value, "kind"@) == Some(JsonView::Text("protocol-info"@)),
        json::member(value, "version"@) == Some(JsonView::Integer(version)),
        json::member(value, "features"@) == Some(
            JsonView::Array(Seq::new(features.len(), |i: int| JsonView::Text(features[i]))),
        ),
        -0x8000_0000 <= version < 0x8000_0000,
    ensures
        is_protocol_info(value),
        protocol_info_in(value) == Some(ProtocolInfoView { version: version as i32, features }),
{
    json::law_lists_of_strings_are_read(features, Seq::empty(), 0);
}

/// An answer is read from its identifier, with its status and its response where they are there; a
/// status or a response that is null counts as missing.
pub proof fn law_answers_are_read(
    value: JsonView,
    query_id: Seq<char>,
    status: Seq<char>,
    response: JsonView,
)
    requires
        json::member(value, "query-id"@) == Some(JsonView::Text(query_id)),
        !(response is Null),
    ensures
        json::member(value, "status"@) == Some(JsonView::Text(status)) ==> (answer_in(value)
            matches Some(answer) && answer.query_id == query_id && answer.status == Some(status)),
        json::member(value, "status"@) is None || json::member(value, "status"@) == Some(
            JsonView::Null,
        ) ==> (answer_in(value) matches Some(answer) && answer.query_id == query_id
            && answer.status is None),
        json::member(value, "status"@) matches Some(JsonView::Integer(_)) ==> answer_in(value)
            is None,
        json::member(value, "response"@) == Some(response) && answer_in(value) is Some
            ==> answer_in(value)->0.response == Some(response),
        json::member(value, "response"@) is None || json::member(value, "response"@) == Some(
            JsonView::Null,
        ) ==> (answer_in(value) is Some ==> answer_in(value)->0.response is None),
{
}

/// What has no identifier is no answer.
pub proof fn law_answers_have_identifiers(value: JsonView)
    requires
        json::member(value, "query-id"@) is None,
    ensures
        answer_in(value) is None,
{
}

/// A symbol is read from its name, with its type, its documentation and the range where it is
/// defined where they are there.
pub proof fn law_symbols_are_read(
    value: JsonView,
    name: Seq<char>,
    type_info: Seq<char>,
    documentation: Seq<char>,
    defined_at: JsonView,
)
    requires
        json::member(value, "kind"@) == Some(JsonView::Text("symbol"@)),
        json::member(value, "name"@) == Some(JsonView::Text(name)),
        ({
            ||| json::member(value, "type"@) is None
            ||| json::member(value, "type"@) == Some(JsonView::Null)
            ||| json::member(value, "type"@) == Some(JsonView::Text(type_info))
        }),
        ({
            ||| json::member(value, "documentation"@) is None
            ||| json::member(value, "documentation"@) == Some(JsonView::Null)
            ||| json::member(value, "documentation"@) == Some(JsonView::Text(documentation))
        }),
        ({
            ||| json::member(value, "defined-at"@) is None
            ||| json::member(value, "defined-at"@) == Some(JsonView::Null)
            ||| json::member(value, "defined-at"@) == Some(defined_at) && range_in(defined_at)
                is Some && !(defined_at is Null)
        }),
    ensures
        match lookup_in(value) {
            Some(IdeLookupView::Symbol {
                name: found,
                type_info: found_type,
                documentation: found_text,
                defined_at: found_range,
            }) => {
                &&& found == name
                &&& found_type == (if json::member(value, "type"@) == Some(
                    JsonView::Text(type_info),
                ) {
                    Some(type_info)
                } else {
                    None
                })
                &&& found_text == (if json::member(value, "documentation"@) == Some(
                    JsonView::Text(documentation),
                ) {
                    Some(documentation)
                } else {
                    None
                })
                &&& found_range == (if json::member(value, "defined-at"@) == Some(defined_at)
                    && !(defined_at is Null) {
                    range_in(defined_at)
                } else {
                    None
                })
            },
            _ => false,
        },
{
}

/// A module is read from its name and its path; what is neither a symbol nor a module is not read,
/// nor is what has no name.
pub proof fn law_modules_are_read(value: JsonView, name: Seq<char>, path: Seq<char>, kind: Seq<char>)
    ensures
        json::member(value, "kind"@) == Some(JsonView::Text("module"@)) && json::member(
            value,
            "name"@,
        ) == Some(JsonView::Text(name)) && json::member(value, "path"@) == Some(
            JsonView::Text(path),
        ) ==> lookup_in(value) == Some(IdeLookupView::Module { name, path }),
        json::member(value, "kind"@) == Some(JsonView::Text(kind)) && kind != "symbol"@ && kind
            != "module"@ ==> lookup_in(value) is None,
        json::member(value, "kind"@) is None ==> lookup_in(value) is None,
        json::member(value, "name"@) is None ==> lookup_in(value) is None,
{
    reveal_strlit("symbol");
    reveal_strlit("module");
    assert("symbol"@[0] == 's' && "module"@[0] == 'm');
}

} // verus!
