//! Sound events: where a variant's audio lives, and which entries of a
//! sound event are played and how often.
use vstd::prelude::*;
use vstd::string::{StrSliceExecFns, StringExecFns};

use crate::text::str_eq;

verus! {

/// Index of the first `:` of `s`, or its length when it has none.
pub open spec fn first_colon(s: Seq<char>) -> int
    decreases s.len(),
{
    if s.len() == 0 {
        0
    } else if s[0] == ':' {
        0
    } else {
        1 + first_colon(s.drop_first())
    }
}

proof fn lemma_first_colon_bounds(s: Seq<char>)
    ensures
        0 <= first_colon(s) <= s.len(),
        first_colon(s) < s.len() ==> s[first_colon(s)] == ':',
    decreases s.len(),
{
    if s.len() > 0 && s[0] != ':' {
        lemma_first_colon_bounds(s.drop_first());
    }
}

/// The asset key of a sound variant name: `ns:path` names
/// `ns/sounds/path.ogg`, and a name without a namespace is in `minecraft`.
pub open spec fn sound_key(name: Seq<char>) -> Seq<char> {
    let i = first_colon(name);
    if i < name.len() {
        name.subrange(0, i) + "/sounds/"@ + name.subrange(i + 1, name.len() as int) + ".ogg"@
    } else {
        "minecraft"@ + "/sounds/"@ + name + ".ogg"@
    }
}

/// The asset key of the sound a variant names.
pub fn sound_asset_key(name: &str) -> (r: String)
    ensures
        r@ == sound_key(name@),
{
    let n = name.unicode_len();
    let mut i: usize = 0;
    assert(name@.subrange(0, n as int) =~= name@);
    while i < n && name.get_char(i) != ':'
        invariant
            n == name@.len(),
            i <= n,
            first_colon(name@) == i + first_colon(name@.subrange(i as int, n as int)),
        decreases n - i,
    {
        proof {
            assert(name@.subrange(i as int, n as int).drop_first() =~= name@.subrange(i + 1, n as int));
        }
        i += 1;
    }
    proof {
        lemma_first_colon_bounds(name@);
        assert(first_colon(name@.subrange(i as int, n as int)) == 0);
    }
    let mut out = if i < n {
        String::from_str(name.substring_char(0, i))
    } else {
        String::from_str("minecraft")
    };
    out.append("/sounds/");
    if i < n {
        out.append(name.substring_char(i + 1, n));
    } else {
        out.append(name);
    }
    out.append(".ogg");
    out
}

/// The weight of a variant: the listed weight, but at least 1, cut to
/// its low 32 bits.
pub open spec fn variant_weight(w: Option<u64>) -> u32 {
    let v: u64 = match w {
        Some(x) => if x >= 1 { x } else { 1 },
        None => 1,
    };
    v as u32
}

/// The weight of a variant whose entry lists `weight`, if any.
pub fn weight_of(weight: Option<u64>) -> (r: u32)
    ensures
        r == variant_weight(weight),
{
    let v = match weight {
        Some(x) => if x >= 1 { x } else { 1 },
        None => 1,
    };
    v as u32
}

/// One entry of a sound event's list, as far as choosing it goes: a bare
/// name, an object with its `type`, `name` and `weight` fields, or
/// anything else.
pub enum SoundEntry {
    Bare(String),
    Object { kind: Option<String>, name: Option<String>, weight: Option<u64> },
    Other,
}

/// The name and weight an entry contributes, if any: a bare name with
/// weight 1, or a named object that does not redirect to another event.
pub open spec fn entry_choice(e: SoundEntry) -> Option<(Seq<char>, u32)> {
    match e {
        SoundEntry::Bare(name) => Some((name@, 1u32)),
        SoundEntry::Object { kind, name, weight } => if kind is Some && kind->0@ == "event"@ {
            None
        } else if name is Some {
            Some((name->0@, variant_weight(weight)))
        } else {
            None
        },
        SoundEntry::Other => None,
    }
}

/// The name and weight that `e` contributes to its event, if any.
pub fn entry_variant(e: &SoundEntry) -> (r: Option<(String, u32)>)
    ensures
        match r {
            Some(p) => entry_choice(*e) == Some((p.0@, p.1)),
            None => entry_choice(*e) is None,
        },
{
    match e {
        SoundEntry::Bare(name) => Some((name.clone(), 1)),
        SoundEntry::Object { kind, name, weight } => {
            if let Some(k) = kind {
                if str_eq(k.as_str(), "event") {
                    return None;
                }
            }
            match name {
                Some(n) => Some((n.clone(), weight_of(*weight))),
                None => None,
            }
        },
        SoundEntry::Other => None,
    }
}

/// One level of a JSON document: a number is kept as the `u64` it stands
/// for, if it is one, and the elements of an array and the fields of an
/// object as their own JSON text.
pub enum JsonNode {
    Null,
    Bool(bool),
    Number(Option<u64>),
    Str(String),
    Array(Vec<String>),
    Object(Vec<(String, String)>),
}

/// The top level of the document `serde_json` parses from `text`, if it
/// parses.
pub uninterp spec fn json_node(text: Seq<char>) -> Option<JsonNode>;

/// Parses `text` with `serde_json::from_str` into a `serde_json::Value`
/// and gives its top level: each element or field value as the text
/// `serde_json` writes for it, an object's fields in the order the map
/// holds them. Claimed: the result depends on `text` alone.
#[verifier::external_body]
fn parse_node(text: &str) -> (r: Option<JsonNode>)
    ensures
        r == json_node(text@),
{
    match serde_json::from_str::<serde_json::Value>(text).ok()? {
        serde_json::Value::Null => Some(JsonNode::Null),
        serde_json::Value::Bool(b) => Some(JsonNode::Bool(b)),
        serde_json::Value::Number(n) => Some(JsonNode::Number(n.as_u64())),
        serde_json::Value::String(s) => Some(JsonNode::Str(s)),
        serde_json::Value::Array(a) => Some(JsonNode::Array(a.iter().map(|v| v.to_string()).collect())),
        serde_json::Value::Object(m) => Some(JsonNode::Object(m.into_iter().map(|(k, v)| (k, v.to_string())).collect())),
    }
}

/// The text of the first field of `fields` named `key`.
pub open spec fn find_field(fields: Seq<(String, String)>, key: Seq<char>) -> Option<Seq<char>>
    decreases fields.len(),
{
    if fields.len() == 0 {
        None
    } else if fields[0].0@ == key {
        Some(fields[0].1@)
    } else {
        find_field(fields.drop_first(), key)
    }
}

/// The text of field `key` of the document `text`, where it is an object
/// that has it.
pub open spec fn spec_field(text: Seq<char>, key: Seq<char>) -> Option<Seq<char>> {
    match json_node(text) {
        Some(JsonNode::Object(fields)) => find_field(fields@, key),
        _ => None,
    }
}

/// The string the document `text` holds, if it is one.
pub open spec fn spec_as_str(text: Option<Seq<char>>) -> Option<String> {
    match text {
        Some(t) => match json_node(t) {
            Some(JsonNode::Str(s)) => Some(s),
            _ => None,
        },
        None => None,
    }
}

/// The `u64` the document `text` holds, if it is a number that is one.
pub open spec fn spec_as_u64(text: Option<Seq<char>>) -> Option<u64> {
    match text {
        Some(t) => match json_node(t) {
            Some(JsonNode::Number(n)) => n,
            _ => None,
        },
        None => None,
    }
}

/// What an element of an event's `sounds` list is, as an entry: a string
/// is a bare name, an object gives its `type`, `name` and `weight`.
pub open spec fn spec_entry_of(text: Seq<char>) -> SoundEntry {
    match json_node(text) {
        Some(JsonNode::Str(name)) => SoundEntry::Bare(name),
        Some(JsonNode::Object(_)) => SoundEntry::Object {
            kind: spec_as_str(spec_field(text, "type"@)),
            name: spec_as_str(spec_field(text, "name"@)),
            weight: spec_as_u64(spec_field(text, "weight"@)),
        },
        _ => SoundEntry::Other,
    }
}

/// The variants among the first `n` elements of a `sounds` list: each
/// element that contributes, as its name, its weight and its position.
pub open spec fn variants_upto(list: Seq<String>, n: nat) -> Seq<(Seq<char>, u32, nat)>
    decreases n,
{
    if n == 0 {
        Seq::empty()
    } else {
        let before = variants_upto(list, (n - 1) as nat);
        match entry_choice(spec_entry_of(list[n - 1]@)) {
            Some(c) => before.push((c.0, c.1, (n - 1) as nat)),
            None => before,
        }
    }
}

/// The variants of the event defined by the document `def`: those of its
/// `sounds` list, if it has one.
pub open spec fn event_variants(def: Seq<char>) -> Option<Seq<(Seq<char>, u32, nat)>> {
    match spec_field(def, "sounds"@) {
        Some(t) => match json_node(t) {
            Some(JsonNode::Array(list)) => Some(variants_upto(list@, list@.len())),
            _ => None,
        },
        None => None,
    }
}

/// The events among the first `n` fields of the document: each event whose
/// `sounds` list gives at least one variant, with those variants.
pub open spec fn events_upto(fields: Seq<(String, String)>, n: nat) -> Seq<(Seq<char>, Seq<(Seq<char>, u32, nat)>)>
    decreases n,
{
    if n == 0 {
        Seq::empty()
    } else {
        let before = events_upto(fields, (n - 1) as nat);
        match event_variants(fields[n - 1].1@) {
            Some(vs) => if vs.len() > 0 {
                before.push((fields[n - 1].0@, vs))
            } else {
                before
            },
            None => before,
        }
    }
}

/// The sound events of a `sounds.json` whose top level is `top`: none
/// unless it is an object.
pub open spec fn spec_sound_events(top: Option<JsonNode>) -> Seq<(Seq<char>, Seq<(Seq<char>, u32, nat)>)> {
    match top {
        Some(JsonNode::Object(fields)) => events_upto(fields@, fields@.len()),
        _ => Seq::empty(),
    }
}

/// The variants as plain values.
pub open spec fn variants_view(vs: Seq<(String, u32, usize)>) -> Seq<(Seq<char>, u32, nat)> {
    vs.map_values(|v: (String, u32, usize)| (v.0@, v.1, v.2 as nat))
}

/// The events as plain values.
pub open spec fn events_view(es: Seq<(String, Vec<(String, u32, usize)>)>) -> Seq<(Seq<char>, Seq<(Seq<char>, u32, nat)>)> {
    es.map_values(|e: (String, Vec<(String, u32, usize)>)| (e.0@, variants_view(e.1@)))
}

/// The text of the first field of `fields` named `key`.
pub fn field_text<'a>(fields: &'a Vec<(String, String)>, key: &str) -> (r: Option<&'a String>)
    ensures
        match r {
            Some(t) => find_field(fields@, key@) == Some(t@),
            None => find_field(fields@, key@) is None,
        },
{
    let mut i: usize = 0;
    assert(fields@.subrange(0, fields@.len() as int) =~= fields@);
    while i < fields.len()
        invariant
            i <= fields@.len(),
            find_field(fields@, key@) == find_field(fields@.subrange(i as int, fields@.len() as int), key@),
        decreases fields.len() - i,
    {
        proof {
            let rest = fields@.subrange(i as int, fields@.len() as int);
            assert(rest[0] == fields@[i as int]);
            assert(rest.drop_first() =~= fields@.subrange(i + 1, fields@.len() as int));
        }
        if str_eq(fields[i].0.as_str(), key) {
            return Some(&fields[i].1);
        }
        i += 1;
    }
    None
}

/// The text of field `key` of the object `node`, if it has one.
fn node_field<'a>(node: &'a Option<JsonNode>, key: &str) -> (r: Option<&'a String>)
    ensures
        match node {
            Some(JsonNode::Object(fields)) => match r {
                Some(t) => find_field(fields@, key@) == Some(t@),
                None => find_field(fields@, key@) is None,
            },
            _ => r is None,
        },
{
    match node {
        Some(JsonNode::Object(fields)) => field_text(fields, key),
        _ => None,
    }
}

fn as_str_of(text: Option<&String>) -> (r: Option<String>)
    ensures
        r == spec_as_str(match text { Some(t) => Some(t@), None => None }),
{
    match text {
        Some(t) => match parse_node(t.as_str()) {
            Some(JsonNode::Str(s)) => Some(s),
            _ => None,
        },
        None => None,
    }
}

fn as_u64_of(text: Option<&String>) -> (r: Option<u64>)
    ensures
        r == spec_as_u64(match text { Some(t) => Some(t@), None => None }),
{
    match text {
        Some(t) => match parse_node(t.as_str()) {
            Some(JsonNode::Number(n)) => n,
            _ => None,
        },
        None => None,
    }
}

/// The entry that an element of a `sounds` list, given as its JSON text,
/// stands for.
pub fn entry_of(text: &str) -> (r: SoundEntry)
    ensures
        r == spec_entry_of(text@),
{
    let node = parse_node(text);
    match node {
        Some(JsonNode::Str(name)) => SoundEntry::Bare(name),
        Some(JsonNode::Object(_)) => SoundEntry::Object {
            kind: as_str_of(node_field(&node, "type")),
            name: as_str_of(node_field(&node, "name")),
            weight: as_u64_of(node_field(&node, "weight")),
        },
        _ => SoundEntry::Other,
    }
}

/// The variants of a `sounds` list, given as the JSON text of each
/// element, in order: each element that names a variant, with its weight
/// and its position in the list.
pub fn list_variants(list: &Vec<String>) -> (r: Vec<(String, u32, usize)>)
    ensures
        variants_view(r@) == variants_upto(list@, list@.len()),
{
    let mut out: Vec<(String, u32, usize)> = Vec::new();
    let mut i: usize = 0;
    proof {
        assert(variants_view(out@) =~= Seq::<(Seq<char>, u32, nat)>::empty());
    }
    while i < list.len()
        invariant
            i <= list@.len(),
            variants_view(out@) == variants_upto(list@, i as nat),
        decreases list.len() - i,
    {
        let e = entry_of(list[i].as_str());
        let ghost before = out@;
        match entry_variant(&e) {
            Some(p) => {
                out.push((p.0, p.1, i));
                proof {
                    assert(variants_view(out@) =~= variants_view(before).push((p.0@, p.1, i as nat)));
                }
            },
            None => {},
        }
        i += 1;
    }
    out
}

/// The variants of the event defined by the JSON text `def`, if it has a
/// `sounds` list.
pub fn def_variants(def: &str) -> (r: Option<Vec<(String, u32, usize)>>)
    ensures
        match r {
            Some(vs) => event_variants(def@) == Some(variants_view(vs@)),
            None => event_variants(def@) is None,
        },
{
    let node = parse_node(def);
    match node_field(&node, "sounds") {
        Some(t) => match parse_node(t.as_str()) {
            Some(JsonNode::Array(list)) => Some(list_variants(&list)),
            _ => None,
        },
        None => None,
    }
}

/// The sound events of a `sounds.json` whose top level is `top`, in the
/// order of its fields: each event whose `sounds` list names at least one
/// variant, with the variants it names. A document that is not an object
/// has none.
pub fn sound_events_of(top: &Option<JsonNode>) -> (r: Vec<(String, Vec<(String, u32, usize)>)>)
    ensures
        events_view(r@) == spec_sound_events(*top),
{
    let mut out: Vec<(String, Vec<(String, u32, usize)>)> = Vec::new();
    proof {
        assert(events_view(out@) =~= Seq::<(Seq<char>, Seq<(Seq<char>, u32, nat)>)>::empty());
    }
    match top {
        Some(JsonNode::Object(fields)) => {
            let mut i: usize = 0;
            while i < fields.len()
                invariant
                    i <= fields@.len(),
                    spec_sound_events(*top) == events_upto(fields@, fields@.len()),
                    events_view(out@) == events_upto(fields@, i as nat),
                decreases fields.len() - i,
            {
                let ghost before = out@;
                match def_variants(fields[i].1.as_str()) {
                    Some(vs) => {
                        if vs.len() > 0 {
                            let name = fields[i].0.clone();
                            out.push((name, vs));
                            proof {
                                assert(events_view(out@) =~= events_view(before).push((fields@[i as int].0@,
                                    variants_view(vs@))));
                            }
                        }
                    },
                    None => {},
                }
                i += 1;
            }
        },
        _ => {},
    }
    out
}

/// The sound events of the `sounds.json` text `text`: none if it does not
/// parse or is not an object.
pub fn sound_events(text: &str) -> (r: Vec<(String, Vec<(String, u32, usize)>)>)
    ensures
        events_view(r@) == spec_sound_events(json_node(text@)),
{
    sound_events_of(&parse_node(text))
}

} // verus!
