//! The registry that ties API UUIDs to graph node ids, and the `#RRGGBB`
//! colour text of the API.

use std::collections::HashMap;
use vstd::prelude::*;
use vstd::string::StringSliceAdditionalSpecFns;
use vstd::utf8::{encode_utf8, is_ascii_chars, is_ascii_chars_encode_utf8, is_continuation_byte};

use crate::graph::model::NodeId;

verus! {

broadcast use vstd::std_specs::hash::group_hash_axioms;

/// Two-way map between API UUIDs (their 128-bit values) and node ids.
pub struct NodeUuidRegistry {
    pub uuid_to_node: HashMap<u128, NodeId>,
    pub node_to_uuid: HashMap<u64, u128>,
}

/// The two maps are inverse to each other.
pub open spec fn maps_inverse(u2n: Map<u128, NodeId>, n2u: Map<u64, u128>) -> bool {
    &&& forall|u: u128| #[trigger] u2n.contains_key(u) ==> {
        &&& n2u.contains_key(u2n[u].0)
        &&& n2u[u2n[u].0] == u
    }
    &&& forall|n: u64| #[trigger] n2u.contains_key(n) ==> {
        &&& u2n.contains_key(n2u[n])
        &&& u2n[n2u[n]] == NodeId(n)
    }
}

impl NodeUuidRegistry {
    /// The two maps are inverse to each other.
    pub open spec fn consistent(&self) -> bool {
        maps_inverse(self.uuid_to_node@, self.node_to_uuid@)
    }

    pub fn new() -> (r: NodeUuidRegistry)
        ensures
            r.uuid_to_node@ == Map::<u128, NodeId>::empty(),
            r.node_to_uuid@ == Map::<u64, u128>::empty(),
            r.consistent(),
    {
        NodeUuidRegistry { uuid_to_node: HashMap::new(), node_to_uuid: HashMap::new() }
    }

    pub fn register(&mut self, uuid: u128, node_id: NodeId)
        ensures
            final(self).uuid_to_node@ == old(self).uuid_to_node@.insert(uuid, node_id),
            final(self).node_to_uuid@ == old(self).node_to_uuid@.insert(node_id.0, uuid),
    {
        self.uuid_to_node.insert(uuid, node_id);
        self.node_to_uuid.insert(node_id.0, uuid);
    }

    pub fn remove_by_uuid(&mut self, uuid: u128) -> (r: Option<NodeId>)
        ensures
            r == old(self).uuid_to_node@.get(uuid),
            final(self).uuid_to_node@ == old(self).uuid_to_node@.remove(uuid),
            final(self).node_to_uuid@ == match r {
                Some(n) => old(self).node_to_uuid@.remove(n.0),
                None => old(self).node_to_uuid@,
            },
    {
        match self.uuid_to_node.remove(&uuid) {
            Some(node_id) => {
                self.node_to_uuid.remove(&node_id.0);
                Some(node_id)
            },
            None => {
                assert(self.uuid_to_node@ =~= old(self).uuid_to_node@.remove(uuid));
                None
            },
        }
    }

    pub fn remove_by_node_id(&mut self, node_id: NodeId) -> (r: Option<u128>)
        ensures
            r == old(self).node_to_uuid@.get(node_id.0),
            final(self).node_to_uuid@ == old(self).node_to_uuid@.remove(node_id.0),
            final(self).uuid_to_node@ == match r {
                Some(u) => old(self).uuid_to_node@.remove(u),
                None => old(self).uuid_to_node@,
            },
    {
        match self.node_to_uuid.remove(&node_id.0) {
            Some(uuid) => {
                self.uuid_to_node.remove(&uuid);
                Some(uuid)
            },
            None => {
                assert(self.node_to_uuid@ =~= old(self).node_to_uuid@.remove(node_id.0));
                None
            },
        }
    }

    /// The node registered under `uuid`.
    pub fn node_of(&self, uuid: u128) -> (r: Option<NodeId>)
        ensures
            r == self.uuid_to_node@.get(uuid),
    {
        match self.uuid_to_node.get(&uuid) {
            Some(n) => Some(*n),
            None => None,
        }
    }

    /// The UUID registered for `node_id`.
    pub fn uuid_of(&self, node_id: NodeId) -> (r: Option<u128>)
        ensures
            r == self.node_to_uuid@.get(node_id.0),
    {
        match self.node_to_uuid.get(&node_id.0) {
            Some(u) => Some(*u),
            None => None,
        }
    }

    pub fn len(&self) -> (n: usize)
        ensures
            n == self.uuid_to_node@.len(),
    {
        self.uuid_to_node.len()
    }
}

/// A registration is found from both sides, and removing the UUID gives the
/// node back.
pub proof fn lemma_register_lookup(u2n: Map<u128, NodeId>, n2u: Map<u64, u128>, uuid: u128, node_id: NodeId)
    ensures
        u2n.insert(uuid, node_id).get(uuid) == Some(node_id),
        n2u.insert(node_id.0, uuid).get(node_id.0) == Some(uuid),
        !u2n.insert(uuid, node_id).remove(uuid).contains_key(uuid),
        !n2u.insert(node_id.0, uuid).remove(node_id.0).contains_key(node_id.0),
{
}

/// Registering a fresh UUID for a fresh node keeps the two maps inverse.
pub proof fn lemma_register_fresh_consistent(
    before: NodeUuidRegistry,
    after: NodeUuidRegistry,
    uuid: u128,
    node_id: NodeId,
)
    requires
        before.consistent(),
        !before.uuid_to_node@.contains_key(uuid),
        !before.node_to_uuid@.contains_key(node_id.0),
        after.uuid_to_node@ == before.uuid_to_node@.insert(uuid, node_id),
        after.node_to_uuid@ == before.node_to_uuid@.insert(node_id.0, uuid),
    ensures
        after.consistent(),
{
}

/// Removing by UUID keeps the two maps inverse.
pub proof fn lemma_remove_consistent(before: NodeUuidRegistry, after: NodeUuidRegistry, uuid: u128)
    requires
        before.consistent(),
        after.uuid_to_node@ == before.uuid_to_node@.remove(uuid),
        after.node_to_uuid@ == match before.uuid_to_node@.get(uuid) {
            Some(n) => before.node_to_uuid@.remove(n.0),
            None => before.node_to_uuid@,
        },
    ensures
        after.consistent(),
{
}

// ---------------------------------------------------------------- colour text

/// Value of an ASCII hexadecimal digit (either case).
pub open spec fn hex_digit(c: u8) -> Option<u8> {
    if 48 <= c <= 57 {
        Some((c - 48) as u8)
    } else if 97 <= c <= 102 {
        Some((c - 87) as u8)
    } else if 65 <= c <= 70 {
        Some((c - 55) as u8)
    } else {
        None
    }
}

/// `u8::from_str_radix(_, 16)` on a two-byte text: an optional leading `+`
/// then hexadecimal digits.
pub open spec fn hex_pair(a: u8, b: u8) -> Option<u8> {
    if a == 43 {
        hex_digit(b)
    } else {
        match (hex_digit(a), hex_digit(b)) {
            (Some(x), Some(y)) => Some((x * 16 + y) as u8),
            _ => None,
        }
    }
}

/// The text after a leading `#`, if there is one.
pub open spec fn without_hash(b: Seq<u8>) -> Seq<u8> {
    if b.len() > 0 && b[0] == 35 {
        b.drop_first()
    } else {
        b
    }
}

/// The colour that UTF-8 text `b` denotes: after an optional `#`, exactly six
/// bytes, read as three two-byte hexadecimal channels.
pub open spec fn hex_color_value(b: Seq<u8>) -> Option<[u8; 3]> {
    let h = without_hash(b);
    if h.len() != 6 {
        None
    } else {
        match (hex_pair(h[0], h[1]), hex_pair(h[2], h[3]), hex_pair(h[4], h[5])) {
            (Some(r), Some(g), Some(bl)) => Some([r, g, bl]),
            _ => None,
        }
    }
}

/// The three channel texts start on character boundaries (else slicing them panics).
pub open spec fn hex_color_sliceable(b: Seq<u8>) -> bool {
    let h = without_hash(b);
    h.len() == 6 ==> !is_continuation_byte(h[2]) && !is_continuation_byte(h[4])
}

fn hex_digit_exec(c: u8) -> (r: Option<u8>)
    ensures
        r == hex_digit(c),
{
    if 48 <= c && c <= 57 {
        Some(c - 48)
    } else if 97 <= c && c <= 102 {
        Some(c - 87)
    } else if 65 <= c && c <= 70 {
        Some(c - 55)
    } else {
        None
    }
}

fn hex_pair_exec(a: u8, b: u8) -> (r: Option<u8>)
    ensures
        r == hex_pair(a, b),
{
    if a == 43 {
        hex_digit_exec(b)
    } else {
        match (hex_digit_exec(a), hex_digit_exec(b)) {
            (Some(x), Some(y)) => Some(x * 16 + y),
            _ => None,
        }
    }
}

/// Parses `#RRGGBB` (the `#` optional) into three channel bytes.
pub fn parse_hex_color(hex: &str) -> (r: Option<[u8; 3]>)
    requires
        hex_color_sliceable(hex.spec_bytes()),
    ensures
        r == hex_color_value(hex.spec_bytes()),
{
    let b = hex.as_bytes();
    let start: usize = if b.len() > 0 && b[0] == 35 {
        1
    } else {
        0
    };
    let ghost h = without_hash(b@);
    assert(h =~= b@.subrange(start as int, b@.len() as int));
    if b.len() - start != 6 {
        return None;
    }
    let r = hex_pair_exec(b[start], b[start + 1]);
    let g = hex_pair_exec(b[start + 2], b[start + 3]);
    let bl = hex_pair_exec(b[start + 4], b[start + 5]);
    match (r, g, bl) {
        (Some(r), Some(g), Some(bl)) => Some([r, g, bl]),
        _ => None,
    }
}

/// Upper-case hexadecimal digit for `n < 16`.
pub open spec fn hex_char(n: u8) -> char {
    if n < 10 {
        (n + 48) as char
    } else {
        (n + 55) as char
    }
}

/// The text `#RRGGBB` of a colour, upper-case, two digits per channel.
pub open spec fn hex_color_text(c: [u8; 3]) -> Seq<char> {
    seq![
        '#',
        hex_char(c[0] / 16),
        hex_char(c[0] % 16),
        hex_char(c[1] / 16),
        hex_char(c[1] % 16),
        hex_char(c[2] / 16),
        hex_char(c[2] % 16),
    ]
}

fn hex_digit_text(n: u8) -> (s: &'static str)
    requires
        n < 16,
    ensures
        s@ == seq![hex_char(n)],
{
    let s = match n {
        0 => "0",
        1 => "1",
        2 => "2",
        3 => "3",
        4 => "4",
        5 => "5",
        6 => "6",
        7 => "7",
        8 => "8",
        9 => "9",
        10 => "A",
        11 => "B",
        12 => "C",
        13 => "D",
        14 => "E",
        _ => "F",
    };
    proof {
        reveal_strlit("0");
        reveal_strlit("1");
        reveal_strlit("2");
        reveal_strlit("3");
        reveal_strlit("4");
        reveal_strlit("5");
        reveal_strlit("6");
        reveal_strlit("7");
        reveal_strlit("8");
        reveal_strlit("9");
        reveal_strlit("A");
        reveal_strlit("B");
        reveal_strlit("C");
        reveal_strlit("D");
        reveal_strlit("E");
        reveal_strlit("F");
    }
    assert(s@ =~= seq![hex_char(n)]);
    s
}

/// `#RRGGBB` text of a colour's three channel bytes.
pub fn color_to_hex(c: [u8; 3]) -> (s: String)
    ensures
        s@ == hex_color_text(c),
{
    let mut s = String::new();
    s.append("#");
    proof {
        reveal_strlit("#");
    }
    let mut k: usize = 0;
    while k < 3
        invariant
            k <= 3,
            s@.len() == 1 + 2 * k,
            s@[0] == '#',
            forall|j: int| 0 <= j < k ==> s@[1 + 2 * j] == hex_char(c[j] / 16) && s@[2 + 2 * j] == hex_char(c[j] % 16),
        decreases 3 - k,
    {
        let v = c[k];
        s.append(hex_digit_text(v / 16));
        s.append(hex_digit_text(v % 16));
        k = k + 1;
    }
    assert(s@ =~= hex_color_text(c));
    s
}

/// Parsing the text of a colour gives the colour back.
pub proof fn lemma_hex_round_trip(c: [u8; 3])
    ensures
        hex_color_sliceable(encode_utf8(hex_color_text(c))),
        hex_color_value(encode_utf8(hex_color_text(c))) == Some(c),
{
    let t = hex_color_text(c);
    assert(is_ascii_chars(t));
    is_ascii_chars_encode_utf8(t);
    let b = encode_utf8(t);
    assert(b[0] == 35u8);
    let h = without_hash(b);
    assert(h.len() == 6);
    assert forall|k: int| 0 <= k < 3 implies hex_pair(h[2 * k], h[2 * k + 1]) == Some(c[k]) by {
        assert(h[2 * k] == t[2 * k + 1] as u8);
        assert(h[2 * k + 1] == t[2 * k + 2] as u8);
    }
    assert(hex_pair(h[0], h[1]) == Some(c[0]));
    assert(hex_pair(h[2], h[3]) == Some(c[1]));
    assert(hex_pair(h[4], h[5]) == Some(c[2]));
}


/// The character of an ASCII byte, a lower-case letter made upper-case.
pub open spec fn ascii_upper(b: u8) -> char {
    if 97 <= b <= 122 {
        (b - 32) as char
    } else {
        b as char
    }
}

/// Two hexadecimal digits read as a channel print back as the same digits, upper-case.
proof fn lemma_hex_pair_text(a: u8, d: u8)
    requires
        hex_digit(a) is Some,
        hex_digit(d) is Some,
    ensures
        hex_pair(a, d) is Some,
        hex_char(hex_pair(a, d).unwrap() / 16) == ascii_upper(a),
        hex_char(hex_pair(a, d).unwrap() % 16) == ascii_upper(d),
{
    let x = hex_digit(a).unwrap();
    let y = hex_digit(d).unwrap();
    assert(a != 43);
    let v = (x * 16 + y) as u8;
    assert(v / 16 == x && v % 16 == y) by (nonlinear_arith)
        requires
            x < 16,
            y < 16,
            v == x * 16 + y,
    ;
}

/// Text of six hexadecimal digits (either case, after an optional `#`) is a
/// colour, and printing that colour gives `#` and the same digits, upper-case.
pub proof fn lemma_hex_text_round_trip(b: Seq<u8>)
    requires
        without_hash(b).len() == 6,
        forall|i: int| 0 <= i < 6 ==> #[trigger] hex_digit(without_hash(b)[i]) is Some,
    ensures
        hex_color_value(b) is Some,
        hex_color_text(hex_color_value(b).unwrap()) == seq!['#'] + without_hash(b).map_values(|x: u8| ascii_upper(x)),
{
    let h = without_hash(b);
    lemma_hex_pair_text(h[0], h[1]);
    lemma_hex_pair_text(h[2], h[3]);
    lemma_hex_pair_text(h[4], h[5]);
    let c = hex_color_value(b).unwrap();
    let lhs = hex_color_text(c);
    let rhs = seq!['#'] + h.map_values(|x: u8| ascii_upper(x));
    assert(lhs.len() == 7 && rhs.len() == 7);
    assert forall|i: int| 0 <= i < 7 implies lhs[i] == rhs[i] by {
        if i > 0 {
            assert(rhs[i] == ascii_upper(h[i - 1]));
        }
    }
    assert(lhs =~= rhs);
}

} // verus!
