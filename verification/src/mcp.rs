//! Helpers of the MCP tool server that fronts the HTTP API: reading UUID
//! arguments, building endpoint URLs and turning an HTTP reply into tool text.

use vstd::prelude::*;
use vstd::std_specs::iter::IteratorSpec;
use vstd::string::StrSliceExecFns;

use crate::graph::model::Vec2Bits;
use crate::uuid_text::{uuid_hyphenated, uuid_parse_str, uuid_text_value, uuid_to_text};
use vstd::string::StringExecFns;

verus! {

/// Unicode `White_Space`, which `char::is_whitespace` tests.
pub open spec fn is_unicode_whitespace(c: char) -> bool {
    ||| c == '\t'
    ||| c == '\n'
    ||| c == '\u{0B}'
    ||| c == '\u{0C}'
    ||| c == '\r'
    ||| c == ' '
    ||| c == '\u{85}'
    ||| c == '\u{A0}'
    ||| c == '\u{1680}'
    ||| ('\u{2000}' <= c && c <= '\u{200A}')
    ||| c == '\u{2028}'
    ||| c == '\u{2029}'
    ||| c == '\u{202F}'
    ||| c == '\u{205F}'
    ||| c == '\u{3000}'
}

fn is_whitespace_char(c: char) -> (r: bool)
    ensures
        r == is_unicode_whitespace(c),
{
    c == '\t' || c == '\n' || c == '\u{0B}' || c == '\u{0C}' || c == '\r' || c == ' ' || c == '\u{85}'
        || c == '\u{A0}' || c == '\u{1680}' || ('\u{2000}' <= c && c <= '\u{200A}') || c == '\u{2028}'
        || c == '\u{2029}' || c == '\u{202F}' || c == '\u{205F}' || c == '\u{3000}'
}

/// First index at or after `i` whose character is not whitespace (or the end).
pub open spec fn skip_whitespace(s: Seq<char>, i: int) -> int
    decreases s.len() - i,
{
    if 0 <= i < s.len() && is_unicode_whitespace(s[i]) {
        skip_whitespace(s, i + 1)
    } else {
        i
    }
}

/// Going down from `j` to `lo`, the first end that follows a non-whitespace character.
pub open spec fn back_over_whitespace(s: Seq<char>, lo: int, j: int) -> int
    decreases j - lo,
{
    if lo < j <= s.len() && is_unicode_whitespace(s[j - 1]) {
        back_over_whitespace(s, lo, j - 1)
    } else {
        j
    }
}

/// `s` without leading and trailing whitespace, as `str::trim` gives it.
pub open spec fn trimmed(s: Seq<char>) -> Seq<char> {
    let i = skip_whitespace(s, 0);
    s.subrange(i, back_over_whitespace(s, i, s.len() as int))
}

fn chars_of(s: &str) -> (cs: Vec<char>)
    ensures
        cs@ == s@,
{
    let mut cs: Vec<char> = Vec::new();
    for c in it: s.chars()
        invariant
            it.seq() == s@,
            cs@ == s@.take(it.index() as int),
    {
        let ghost i0 = it.index();
        cs.push(c);
        assert(s@.take(i0 + 1) =~= s@.take(i0 as int).push(c));
    }
    assert(s@.take(s@.len() as int) =~= s@);
    cs
}

/// `s` without leading and trailing whitespace.
pub fn trim_whitespace(s: &str) -> (r: &str)
    ensures
        r@ == trimmed(s@),
{
    let cs = chars_of(s);
    let n = cs.len();
    let mut i: usize = 0;
    while i < n && is_whitespace_char(cs[i])
        invariant
            cs@ == s@,
            n == s@.len(),
            i <= n,
            skip_whitespace(s@, i as int) == skip_whitespace(s@, 0),
        decreases n - i,
    {
        i = i + 1;
    }
    let mut j: usize = n;
    while j > i && is_whitespace_char(cs[j - 1])
        invariant
            cs@ == s@,
            n == s@.len(),
            i <= j <= n,
            i == skip_whitespace(s@, 0),
            back_over_whitespace(s@, i as int, j as int) == back_over_whitespace(s@, i as int, n as int),
        decreases j - i,
    {
        j = j - 1;
    }
    s.substring_char(i, j)
}

/// A UUID argument that did not parse: the text as given and the crate's reason.
#[derive(Debug)]
pub struct InvalidUuid {
    pub input: String,
    pub cause: uuid::Error,
}

/// Reads a UUID argument, ignoring surrounding whitespace.
pub fn parse_uuid(s: &str) -> (r: Result<u128, InvalidUuid>)
    ensures
        match r {
            Ok(v) => uuid_text_value(trimmed(s@)) == Some(v),
            Err(e) => uuid_text_value(trimmed(s@)) is None && e.input@ == s@,
        },
{
    match uuid_parse_str(trim_whitespace(s)) {
        Ok(v) => Ok(v),
        Err(cause) => Err(InvalidUuid { input: s.to_owned(), cause }),
    }
}

/// The UUIDs of `list` while all of them parse.
pub open spec fn all_parse(list: Seq<String>) -> bool {
    forall|i: int| 0 <= i < list.len() ==> (#[trigger] uuid_text_value(trimmed(list[i]@))) is Some
}

/// The parsed UUIDs of `list`, in order.
pub open spec fn parsed_uuids(list: Seq<String>) -> Seq<u128> {
    list.map_values(|t: String| uuid_text_value(trimmed(t@))->0)
}

/// Entry `k` of `list` is the first that does not parse.
pub open spec fn first_failure(list: Seq<String>, k: int) -> bool {
    &&& 0 <= k < list.len()
    &&& all_parse(list.take(k))
    &&& uuid_text_value(trimmed(list[k]@)) is None
}

/// Reads an optional list of UUID arguments; the first one that does not
/// parse is the error.
pub fn parse_uuid_list_opt(edges: Option<&Vec<String>>) -> (r: Result<Option<Vec<u128>>, InvalidUuid>)
    ensures
        edges is None ==> (r == Ok::<Option<Vec<u128>>, InvalidUuid>(None)),
        edges is Some ==> match r {
            Ok(Some(v)) => all_parse(edges->0@) && v@ == parsed_uuids(edges->0@),
            Ok(None) => false,
            Err(e) => exists|k: int| #[trigger] first_failure(edges->0@, k) && e.input@ == edges->0@[k]@,
        },
{
    let list = match edges {
        None => return Ok(None),
        Some(l) => l,
    };
    let mut out: Vec<u128> = Vec::new();
    let mut i: usize = 0;
    while i < list.len()
        invariant
            edges == Some(list),
            i <= list.len(),
            all_parse(list@.take(i as int)),
            out@ == parsed_uuids(list@.take(i as int)),
        decreases list.len() - i,
    {
        let text = list[i].as_str();
        assert(text@ == list@[i as int]@);
        match parse_uuid(text) {
            Ok(v) => {
                out.push(v);
                assert(list@.take(i + 1) =~= list@.take(i as int).push(list@[i as int]));
                assert(parsed_uuids(list@.take(i + 1)) =~= parsed_uuids(list@.take(i as int)).push(v));
            },
            Err(e) => {
                assert(first_failure(edges->0@, i as int));
                return Err(e);
            },
        }
        i = i + 1;
    }
    assert(list@.take(list.len() as int) =~= list@);
    Ok(Some(out))
}

/// Every entry of an optional list reads as a UUID (true of no list).
pub open spec fn list_parses(edges: Option<Vec<String>>) -> bool {
    match edges {
        None => true,
        Some(l) => all_parse(l@),
    }
}

/// Reads the neighbour lists of a bulk creation, one per node; the first
/// entry that is not a UUID, in the first list that has one, is the error.
pub fn parse_bulk_edge_lists(lists: &Vec<Option<Vec<String>>>) -> (r: Result<Vec<Option<Vec<u128>>>, InvalidUuid>)
    ensures
        match r {
            Ok(out) => {
                &&& out@.len() == lists@.len()
                &&& forall|i: int|
                    0 <= i < lists@.len() ==> match #[trigger] lists@[i] {
                        None => out@[i] is None,
                        Some(l) => all_parse(l@) && out@[i] is Some && out@[i]->0@ == parsed_uuids(l@),
                    }
            },
            Err(e) => exists|i: int|
                {
                    &&& 0 <= i < lists@.len()
                    &&& forall|j: int| 0 <= j < i ==> #[trigger] list_parses(lists@[j])
                    &&& lists@[i] is Some
                    &&& exists|k: int| #[trigger] first_failure(lists@[i]->0@, k) && e.input@ == lists@[i]->0@[k]@
                },
        },
{
    let mut out: Vec<Option<Vec<u128>>> = Vec::new();
    let mut i: usize = 0;
    while i < lists.len()
        invariant
            i <= lists.len(),
            out@.len() == i,
            forall|j: int|
                0 <= j < i ==> match #[trigger] lists@[j] {
                    None => out@[j] is None,
                    Some(l) => all_parse(l@) && out@[j] is Some && out@[j]->0@ == parsed_uuids(l@),
                },
        decreases lists.len() - i,
    {
        let parsed = match &lists[i] {
            None => parse_uuid_list_opt(None),
            Some(l) => parse_uuid_list_opt(Some(l)),
        };
        match parsed {
            Ok(v) => {
                out.push(v);
            },
            Err(e) => {
                assert forall|j: int| 0 <= j < i implies #[trigger] list_parses(lists@[j]) by {
                    match lists@[j] {
                        None => {},
                        Some(l) => {},
                    }
                }
                return Err(e);
            },
        }
        i = i + 1;
    }
    Ok(out)
}

/// `s` without its trailing `'/'` characters.
pub open spec fn without_trailing_slashes(s: Seq<char>) -> Seq<char>
    decreases s.len(),
{
    if s.len() > 0 && s.last() == '/' {
        without_trailing_slashes(s.drop_last())
    } else {
        s
    }
}

/// URL of an API endpoint: the base without trailing slashes, then `path`.
pub fn api_url(base: &str, path: &str) -> (url: String)
    ensures
        url@ == without_trailing_slashes(base@) + path@,
{
    let cs = chars_of(base);
    let mut j: usize = cs.len();
    assert(base@.subrange(0, j as int) =~= base@);
    while j > 0 && cs[j - 1] == '/'
        invariant
            cs@ == base@,
            j <= base@.len(),
            without_trailing_slashes(base@.subrange(0, j as int)) == without_trailing_slashes(base@),
        decreases j,
    {
        assert(base@.subrange(0, j as int).drop_last() =~= base@.subrange(0, j - 1));
        j = j - 1;
    }
    let mut url = String::new();
    url.append(base.substring_char(0, j));
    url.append(path);
    url
}

/// URL of one node's endpoint: `/nodes/` and the node's UUID after the base.
pub fn node_url(base: &str, id: u128) -> (url: String)
    ensures
        url@ == without_trailing_slashes(base@) + ("/nodes/"@ + uuid_hyphenated(id)),
{
    let mut path = String::from_str("/nodes/");
    path.append(uuid_to_text(id).as_str());
    api_url(base, path.as_str())
}

/// The fields of a partial node update: only those given are to change.
/// `position` is a pair of `f32` values as bit patterns.
pub struct PartialUpdate {
    pub name: Option<String>,
    pub data: Option<String>,
    pub color: Option<String>,
    pub edges: Option<Vec<u128>>,
    pub position: Option<Vec2Bits>,
}

/// A partial update from the tool's arguments: the given fields as they are,
/// the neighbour list (when given) read as UUIDs; the first entry that is not
/// a UUID is the error.
pub fn build_partial_update(
    name: Option<String>,
    data: Option<String>,
    color: Option<String>,
    edges: Option<&Vec<String>>,
    position: Option<Vec2Bits>,
) -> (r: Result<PartialUpdate, InvalidUuid>)
    ensures
        match r {
            Ok(u) => {
                &&& u.name == name
                &&& u.data == data
                &&& u.color == color
                &&& u.position == position
                &&& match edges {
                    None => u.edges is None,
                    Some(l) => {
                        &&& all_parse(l@)
                        &&& u.edges is Some
                        &&& u.edges->0@ == parsed_uuids(l@)
                    },
                }
            },
            Err(e) => {
                &&& edges is Some
                &&& exists|k: int| #[trigger] first_failure(edges->0@, k) && e.input@ == edges->0@[k]@
            },
        },
{
    let edges = match parse_uuid_list_opt(edges) {
        Ok(v) => v,
        Err(e) => return Err(e),
    };
    Ok(PartialUpdate { name, data, color, edges, position })
}

/// Whether an HTTP status code is a success (the 2xx range).
pub fn status_is_success(code: u16) -> (ok: bool)
    ensures
        ok == (200 <= code <= 299),
{
    200 <= code && code <= 299
}

/// Tool text for an HTTP reply: `HTTP <status>`, then a newline and the body
/// when there is one.
pub fn tool_result_text(status: &str, body: &str) -> (text: String)
    ensures
        text@ == if body@.len() == 0 {
            "HTTP "@ + status@
        } else {
            "HTTP "@ + status@ + "\n"@ + body@
        },
{
    let mut text = String::new();
    text.append("HTTP ");
    text.append(status);
    if !body.is_empty() {
        text.append("\n");
        text.append(body);
    }
    text
}

} // verus!
