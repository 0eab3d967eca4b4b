//! Metadata synthesis and the JSON document format the engine emits for
//! each token.

use vstd::prelude::*;
use vstd::utf8::char_u32_cast;
use vstd::arithmetic::div_mod::lemma_fundamental_div_mod;
use crate::generator::{Attribute, AttrV, Collection, CollectionV, attr_views};
use crate::utils::{dec_chars_of, u64_to_string, hex_digit_char, hex_digit_str};

verus! {

/// The structured record describing one token: display name, collection
/// description, image reference and the token's attribute list.
pub struct Metadata {
    pub name: String,
    pub description: String,
    pub image: String,
    pub attributes: Vec<Attribute>,
}

/// The mathematical value of a [`Metadata`] record.
#[verifier::ext_equal]
pub ghost struct MetaV {
    pub name: Seq<char>,
    pub description: Seq<char>,
    pub image: Seq<char>,
    pub attributes: Seq<AttrV>,
}

impl View for Metadata {
    type V = MetaV;

    open spec fn view(&self) -> MetaV {
        MetaV {
            name: self.name@,
            description: self.description@,
            image: self.image@,
            attributes: attr_views(self.attributes@),
        }
    }
}

/// The metadata record for token `id` of a collection: the name is the
/// collection name followed by ` #` and the token id, the image reference is
/// the base URI followed by the token id, and the attribute list is kept in
/// layer order.
pub open spec fn synthesize_spec(c: CollectionV, id: nat, attrs: Seq<AttrV>) -> MetaV {
    MetaV {
        name: c.name + " #"@ + dec_chars_of(id),
        description: c.description,
        image: c.base_uri + dec_chars_of(id),
        attributes: attrs,
    }
}

/// Builds the metadata record for one token. Pure and deterministic: the
/// result is a function of the collection, the token id and the attribute
/// set, and it preserves attribute order.
pub fn synthesize(collection: &Collection, token_id: usize, attributes: Vec<Attribute>) -> (m:
    Metadata)
    ensures
        m@ == synthesize_spec(collection@, token_id as nat, attr_views(attributes@)),
{
    let digits = u64_to_string(token_id as u64);
    let mut name = collection.name.clone();
    name.append(" #");
    name.append(digits.as_str());
    let mut image = collection.base_uri.clone();
    image.append(digits.as_str());
    let m = Metadata {
        name,
        description: collection.description.clone(),
        image,
        attributes,
    };
    proof {
        assert(m@ =~= synthesize_spec(collection@, token_id as nat, attr_views(attributes@)));
    }
    m
}

/// The JSON escape of one character: a quote and a backslash get a
/// backslash escape, a control character becomes a `\u00` escape with two
/// uppercase hexadecimal digits, and every other character stands for
/// itself.
pub open spec fn esc_char(c: char) -> Seq<char> {
    if c == '"' {
        seq!['\\', '"']
    } else if c == '\\' {
        seq!['\\', '\\']
    } else if (c as u32) < 32 {
        seq![
            '\\',
            'u',
            '0',
            '0',
            hex_digit_char((c as u32) as nat / 16),
            hex_digit_char((c as u32) as nat % 16),
        ]
    } else {
        seq![c]
    }
}

/// The JSON escape of a string: each character escaped in order.
pub open spec fn esc(s: Seq<char>) -> Seq<char>
    decreases s.len(),
{
    if s.len() == 0 {
        Seq::empty()
    } else {
        esc(s.drop_last()) + esc_char(s.last())
    }
}

/// The JSON object for one attribute.
pub open spec fn attr_json(a: AttrV) -> Seq<char> {
    "{\"trait_type\":\""@ + esc(a.trait_type) + "\",\"value\":\""@ + esc(a.value) + "\"}"@
}

/// The JSON array body for an attribute list: the attributes' objects
/// separated by commas.
pub open spec fn attrs_json(attrs: Seq<AttrV>) -> Seq<char>
    decreases attrs.len(),
{
    if attrs.len() == 0 {
        Seq::empty()
    } else if attrs.len() == 1 {
        attr_json(attrs[0])
    } else {
        attrs_json(attrs.drop_last()) + ","@ + attr_json(attrs.last())
    }
}

/// The JSON document for a metadata record.
pub open spec fn json_of(m: MetaV) -> Seq<char> {
    "{\"name\":\""@ + esc(m.name) + "\",\"description\":\""@ + esc(m.description)
        + "\",\"image\":\""@ + esc(m.image) + "\",\"attributes\":["@ + attrs_json(m.attributes)
        + "]}"@
}

fn esc_exec(s: &str) -> (r: String)
    ensures
        r@ == esc(s@),
{
    let n = s.unicode_len();
    let mut r = String::new();
    let mut i: usize = 0;
    while i < n
        invariant
            i <= n,
            n == s@.len(),
            r@ == esc(s@.take(i as int)),
        decreases n - i,
    {
        let c = s.get_char(i);
        proof {
            assert(s@.take(i + 1 as int).drop_last() =~= s@.take(i as int));
            assert(s@.take(i + 1 as int).last() == s@[i as int]);
        }
        if c == '"' {
            r.append("\\\"");
            proof {
                reveal_strlit("\\\"");
                assert(r@ =~= esc(s@.take(i + 1 as int)));
            }
        } else if c == '\\' {
            r.append("\\\\");
            proof {
                reveal_strlit("\\\\");
                assert(r@ =~= esc(s@.take(i + 1 as int)));
            }
        } else if (c as u32) < 32 {
            let v = c as u32;
            r.append("\\u00");
            r.append(hex_digit_str((v / 16) as u8));
            r.append(hex_digit_str((v % 16) as u8));
            proof {
                reveal_strlit("\\u00");
                assert(r@ =~= esc(s@.take(i + 1 as int)));
            }
        } else {
            let piece = s.substring_char(i, i + 1);
            r.append(piece);
            proof {
                assert(piece@ =~= seq![s@[i as int]]);
                assert(r@ =~= esc(s@.take(i + 1 as int)));
            }
        }
        i = i + 1;
    }
    proof {
        assert(s@.take(n as int) =~= s@);
    }
    r
}

fn attr_to_json(a: &Attribute) -> (r: String)
    ensures
        r@ == attr_json(a@),
{
    let mut r = String::from_str("{\"trait_type\":\"");
    r.append(esc_exec(a.trait_type.as_str()).as_str());
    r.append("\",\"value\":\"");
    r.append(esc_exec(a.value.as_str()).as_str());
    r.append("\"}");
    proof {
        assert(r@ =~= attr_json(a@));
    }
    r
}

/// Serializes a metadata record into its JSON document.
pub fn metadata_to_json(m: &Metadata) -> (r: String)
    ensures
        r@ == json_of(m@),
{
    let ghost av = attr_views(m.attributes@);
    let mut body = String::new();
    let mut i: usize = 0;
    while i < m.attributes.len()
        invariant
            i <= m.attributes@.len(),
            av == attr_views(m.attributes@),
            body@ == attrs_json(av.take(i as int)),
        decreases m.attributes@.len() - i,
    {
        if i > 0 {
            body.append(",");
            proof {
                reveal_strlit(",");
            }
        }
        let piece = attr_to_json(&m.attributes[i]);
        body.append(piece.as_str());
        proof {
            assert(av.take(i + 1 as int).drop_last() =~= av.take(i as int));
            assert(av.take(i + 1 as int).last() == av[i as int]);
            if i == 0 {
                assert(av.take(1int)[0] == av[0int]);
            }
            assert(body@ =~= attrs_json(av.take(i + 1 as int)));
        }
        i = i + 1;
    }
    proof {
        assert(av.take(m.attributes@.len() as int) =~= av);
    }
    let mut r = String::from_str("{\"name\":\"");
    r.append(esc_exec(m.name.as_str()).as_str());
    r.append("\",\"description\":\"");
    r.append(esc_exec(m.description.as_str()).as_str());
    r.append("\",\"image\":\"");
    r.append(esc_exec(m.image.as_str()).as_str());
    r.append("\",\"attributes\":[");
    r.append(body.as_str());
    r.append("]}");
    proof {
        assert(r@ =~= json_of(m@));
    }
    r
}

/// The value of an uppercase hexadecimal digit character, or `-1` for any
/// other character.
pub open spec fn hex_val(c: char) -> int {
    if c == '0' {
        0
    } else if c == '1' {
        1
    } else if c == '2' {
        2
    } else if c == '3' {
        3
    } else if c == '4' {
        4
    } else if c == '5' {
        5
    } else if c == '6' {
        6
    } else if c == '7' {
        7
    } else if c == '8' {
        8
    } else if c == '9' {
        9
    } else if c == 'A' {
        10
    } else if c == 'B' {
        11
    } else if c == 'C' {
        12
    } else if c == 'D' {
        13
    } else if c == 'E' {
        14
    } else if c == 'F' {
        15
    } else {
        -1
    }
}

proof fn lemma_hex_digit_val(d: nat)
    requires
        d < 16,
    ensures
        hex_val(hex_digit_char(d)) == d,
{
}

/// Parses a JSON string body up to and including its closing quote:
/// returns the unescaped content and what follows the closing quote.
pub open spec fn parse_string(s: Seq<char>) -> Option<(Seq<char>, Seq<char>)>
    decreases s.len(),
{
    if s.len() == 0 {
        None
    } else if s[0] == '"' {
        Some((Seq::empty(), s.drop_first()))
    } else if s[0] == '\\' {
        if s.len() >= 2 && (s[1] == '"' || s[1] == '\\') {
            match parse_string(s.skip(2)) {
                Some(p) => Some((seq![s[1]] + p.0, p.1)),
                None => None,
            }
        } else if s.len() >= 6 && s[1] == 'u' && s[2] == '0' && s[3] == '0' && hex_val(s[4]) >= 0
            && hex_val(s[5]) >= 0 && 16 * hex_val(s[4]) + hex_val(s[5]) < 32 {
            match parse_string(s.skip(6)) {
                Some(p) => Some(
                    (seq![(((16 * hex_val(s[4]) + hex_val(s[5])) as u32) as char)] + p.0, p.1),
                ),
                None => None,
            }
        } else {
            None
        }
    } else {
        match parse_string(s.drop_first()) {
            Some(p) => Some((seq![s[0]] + p.0, p.1)),
            None => None,
        }
    }
}

proof fn lemma_parse_string_shrinks(s: Seq<char>)
    ensures
        parse_string(s) matches Some(p) ==> p.1.len() < s.len(),
    decreases s.len(),
{
    if s.len() == 0 {
    } else if s[0] == '"' {
    } else if s[0] == '\\' {
        if s.len() >= 2 && (s[1] == '"' || s[1] == '\\') {
            lemma_parse_string_shrinks(s.skip(2));
        } else if s.len() >= 6 && s[1] == 'u' && s[2] == '0' && s[3] == '0' && hex_val(s[4]) >= 0
            && hex_val(s[5]) >= 0 && 16 * hex_val(s[4]) + hex_val(s[5]) < 32 {
            lemma_parse_string_shrinks(s.skip(6));
        }
    } else {
        lemma_parse_string_shrinks(s.drop_first());
    }
}

/// Consumes an expected literal prefix, returning what follows it.
pub open spec fn parse_lit(s: Seq<char>, lit: Seq<char>) -> Option<Seq<char>> {
    if s.len() >= lit.len() && s.take(lit.len() as int) == lit {
        Some(s.skip(lit.len() as int))
    } else {
        None
    }
}

proof fn lemma_parse_lit(lit: Seq<char>, rest: Seq<char>)
    ensures
        parse_lit(lit + rest, lit) == Some(rest),
{
    assert((lit + rest).take(lit.len() as int) =~= lit);
    assert((lit + rest).skip(lit.len() as int) =~= rest);
}

/// Parses one attribute object.
pub open spec fn parse_attr(s: Seq<char>) -> Option<(AttrV, Seq<char>)> {
    match parse_lit(s, "{\"trait_type\":\""@) {
        Some(r1) => match parse_string(r1) {
            Some((tt, r2)) => match parse_lit(r2, ",\"value\":\""@) {
                Some(r3) => match parse_string(r3) {
                    Some((v, r4)) => match parse_lit(r4, "}"@) {
                        Some(r5) => Some((AttrV { trait_type: tt, value: v }, r5)),
                        None => None,
                    },
                    None => None,
                },
                None => None,
            },
            None => None,
        },
        None => None,
    }
}

proof fn lemma_parse_attr_shrinks(s: Seq<char>)
    ensures
        parse_attr(s) matches Some(p) ==> p.1.len() < s.len(),
{
    match parse_lit(s, "{\"trait_type\":\""@) {
        Some(r1) => {
            lemma_parse_string_shrinks(r1);
            match parse_string(r1) {
                Some(p1) => {
                    match parse_lit(p1.1, ",\"value\":\""@) {
                        Some(r3) => {
                            lemma_parse_string_shrinks(r3);
                        },
                        None => {},
                    }
                },
                None => {},
            }
        },
        None => {},
    }
}

/// Parses the body of the attribute array up to and including its closing
/// bracket.
pub open spec fn parse_attrs(s: Seq<char>) -> Option<(Seq<AttrV>, Seq<char>)>
    decreases s.len(),
    via parse_attrs_dec
{
    if s.len() == 0 {
        None
    } else if s[0] == ']' {
        Some((Seq::empty(), s.drop_first()))
    } else {
        match parse_attr(s) {
            Some((a, r)) => {
                if r.len() > 0 && r[0] == ',' {
                    match parse_attrs(r.drop_first()) {
                        Some((more, rr)) => Some((seq![a] + more, rr)),
                        None => None,
                    }
                } else if r.len() > 0 && r[0] == ']' {
                    Some((seq![a], r.drop_first()))
                } else {
                    None
                }
            },
            None => None,
        }
    }
}

#[via_fn]
proof fn parse_attrs_dec(s: Seq<char>) {
    lemma_parse_attr_shrinks(s);
}

/// Parses a metadata JSON document.
pub open spec fn parse_metadata(s: Seq<char>) -> Option<MetaV> {
    match parse_lit(s, "{\"name\":\""@) {
        Some(r1) => match parse_string(r1) {
            Some((name, r2)) => match parse_lit(r2, ",\"description\":\""@) {
                Some(r3) => match parse_string(r3) {
                    Some((description, r4)) => match parse_lit(r4, ",\"image\":\""@) {
                        Some(r5) => match parse_string(r5) {
                            Some((image, r6)) => match parse_lit(r6, ",\"attributes\":["@) {
                                Some(r7) => match parse_attrs(r7) {
                                    Some((attributes, r8)) => if r8 == "}"@ {
                                        Some(MetaV { name, description, image, attributes })
                                    } else {
                                        None
                                    },
                                    None => None,
                                },
                                None => None,
                            },
                            None => None,
                        },
                        None => None,
                    },
                    None => None,
                },
                None => None,
            },
            None => None,
        },
        None => None,
    }
}

proof fn lemma_esc_first(v: Seq<char>)
    requires
        v.len() > 0,
    ensures
        esc(v) == esc_char(v[0]) + esc(v.drop_first()),
    decreases v.len(),
{
    if v.len() == 1 {
        assert(v.drop_last() =~= Seq::<char>::empty());
        assert(v.drop_first() =~= Seq::<char>::empty());
        assert(esc(v) =~= esc_char(v[0]) + esc(v.drop_first()));
    } else {
        lemma_esc_first(v.drop_last());
        assert(v.drop_last()[0] == v[0]);
        assert(v.drop_first().drop_last() =~= v.drop_last().drop_first());
        assert(v.drop_first().last() == v.last());
        assert(esc(v.drop_first()) == esc(v.drop_first().drop_last()) + esc_char(
            v.drop_first().last(),
        ));
        assert(esc(v) =~= esc_char(v[0]) + esc(v.drop_first()));
    }
}

proof fn lemma_parse_string_esc(v: Seq<char>, rest: Seq<char>)
    ensures
        parse_string(esc(v) + seq!['"'] + rest) == Some((v, rest)),
    decreases v.len(),
{
    let s = esc(v) + seq!['"'] + rest;
    if v.len() == 0 {
        assert(s =~= seq!['"'] + rest);
        assert(s[0] == '"');
        assert(s.drop_first() =~= rest);
        assert(v =~= Seq::<char>::empty());
    } else {
        lemma_esc_first(v);
        let c = v[0];
        let tail = v.drop_first();
        lemma_parse_string_esc(tail, rest);
        let deeper = esc(tail) + seq!['"'] + rest;
        assert(v =~= seq![c] + tail);
        if c == '"' {
            assert(s =~= seq!['\\', '"'] + deeper);
            assert(s[0] == '\\' && s[1] == '"' && s.len() >= 2);
            assert(s.skip(2) =~= deeper);
            assert(seq![s[1]] + tail =~= v);
        } else if c == '\\' {
            assert(s =~= seq!['\\', '\\'] + deeper);
            assert(s[0] == '\\' && s[1] == '\\' && s.len() >= 2);
            assert(s.skip(2) =~= deeper);
            assert(seq![s[1]] + tail =~= v);
        } else if (c as u32) < 32 {
            let val = (c as u32) as int;
            lemma_fundamental_div_mod(val, 16);
            lemma_hex_digit_val((val / 16) as nat);
            lemma_hex_digit_val((val % 16) as nat);
            assert(s =~= seq![
                '\\',
                'u',
                '0',
                '0',
                hex_digit_char(((c as u32) as nat) / 16),
                hex_digit_char(((c as u32) as nat) % 16),
            ] + deeper);
            assert(s[0] == '\\' && s[1] == 'u' && s[2] == '0' && s[3] == '0');
            assert(hex_val(s[4]) == val / 16 && hex_val(s[5]) == val % 16);
            assert(16 * hex_val(s[4]) + hex_val(s[5]) == val);
            assert(val < 32);
            char_u32_cast(c, c as u32);
            assert((((16 * hex_val(s[4]) + hex_val(s[5])) as u32) as char) == c);
            assert(s.skip(6) =~= deeper);
            assert(seq![c] + tail =~= v);
        } else {
            assert(s[0] == c);
            assert(s[0] != '"' && s[0] != '\\');
            assert(s.drop_first() =~= deeper);
            assert(seq![s[0]] + tail =~= v);
        }
    }
}

proof fn lemma_parse_attr_json(a: AttrV, rest: Seq<char>)
    ensures
        parse_attr(attr_json(a) + rest) == Some((a, rest)),
{
    let s = attr_json(a) + rest;
    let l1 = "{\"trait_type\":\""@;
    let l2 = ",\"value\":\""@;
    let w = "}"@ + rest;
    let z = esc(a.value) + seq!['"'] + w;
    let y = l2 + z;
    let x = esc(a.trait_type) + seq!['"'] + y;
    reveal_strlit("{\"trait_type\":\"");
    reveal_strlit("\",\"value\":\"");
    reveal_strlit(",\"value\":\"");
    reveal_strlit("\"}");
    reveal_strlit("}");
    assert("\",\"value\":\""@ =~= seq!['"'] + l2);
    assert("\"}"@ =~= seq!['"'] + "}"@);
    assert(s =~= l1 + x);
    lemma_parse_lit(l1, x);
    lemma_parse_string_esc(a.trait_type, y);
    lemma_parse_lit(l2, z);
    lemma_parse_string_esc(a.value, w);
    lemma_parse_lit("}"@, rest);
    assert(parse_attr(s) == Some((AttrV { trait_type: a.trait_type, value: a.value }, rest)));
    assert(AttrV { trait_type: a.trait_type, value: a.value } =~= a);
}

proof fn lemma_attrs_json_first(attrs: Seq<AttrV>)
    requires
        attrs.len() >= 2,
    ensures
        attrs_json(attrs) == attr_json(attrs[0]) + ","@ + attrs_json(attrs.drop_first()),
    decreases attrs.len(),
{
    if attrs.len() == 2 {
        assert(attrs.drop_last()[0] == attrs[0]);
        assert(attrs.drop_last().len() == 1);
        assert(attrs.drop_first().len() == 1);
        assert(attrs.drop_first()[0] == attrs[1]);
        assert(attrs_json(attrs.drop_last()) == attr_json(attrs[0]));
        assert(attrs_json(attrs.drop_first()) == attr_json(attrs[1]));
        assert(attrs_json(attrs) == attrs_json(attrs.drop_last()) + ","@ + attr_json(attrs.last()));
        assert(attrs_json(attrs) =~= attr_json(attrs[0]) + ","@ + attrs_json(attrs.drop_first()));
    } else {
        lemma_attrs_json_first(attrs.drop_last());
        assert(attrs.drop_last()[0] == attrs[0]);
        assert(attrs.drop_first().drop_last() =~= attrs.drop_last().drop_first());
        assert(attrs.drop_first().last() == attrs.last());
        assert(attrs.drop_first().len() >= 2);
        assert(attrs_json(attrs.drop_first()) == attrs_json(attrs.drop_first().drop_last()) + ","@
            + attr_json(attrs.drop_first().last()));
        assert(attrs_json(attrs) =~= attr_json(attrs[0]) + ","@ + attrs_json(attrs.drop_first()));
    }
}

proof fn lemma_attr_json_starts(a: AttrV)
    ensures
        attr_json(a).len() > 0,
        attr_json(a)[0] == '{',
{
    reveal_strlit("{\"trait_type\":\"");
    assert(attr_json(a)[0] == "{\"trait_type\":\""@[0]);
}

#[verifier::spinoff_prover]
#[verifier::rlimit(100)]
proof fn lemma_parse_attrs_json(attrs: Seq<AttrV>, rest: Seq<char>)
    ensures
        parse_attrs(attrs_json(attrs) + seq![']'] + rest) == Some((attrs, rest)),
    decreases attrs.len(),
{
    let s = attrs_json(attrs) + seq![']'] + rest;
    reveal_strlit(",");
    if attrs.len() == 0 {
        assert(s =~= seq![']'] + rest);
        assert(s[0] == ']');
        assert(s.drop_first() =~= rest);
        assert(attrs =~= Seq::<AttrV>::empty());
    } else if attrs.len() == 1 {
        let r = seq![']'] + rest;
        assert(s =~= attr_json(attrs[0]) + r);
        lemma_parse_attr_json(attrs[0], r);
        lemma_attr_json_starts(attrs[0]);
        assert(s[0] == '{');
        assert(s.len() > 0 && s[0] != ']');
        assert(r[0] == ']' && r[0] != ',');
        assert(r.drop_first() =~= rest);
        assert(seq![attrs[0]] =~= attrs);
    } else {
        lemma_attrs_json_first(attrs);
        let tail = attrs.drop_first();
        let r = ","@ + (attrs_json(tail) + seq![']'] + rest);
        assert(s =~= attr_json(attrs[0]) + r);
        lemma_parse_attr_json(attrs[0], r);
        lemma_attr_json_starts(attrs[0]);
        assert(s[0] == '{');
        assert(s.len() > 0 && s[0] != ']');
        assert(r[0] == ',');
        lemma_parse_attrs_json(tail, rest);
        assert(r.drop_first() =~= attrs_json(tail) + seq![']'] + rest);
        assert(seq![attrs[0]] + tail =~= attrs);
    }
}

/// Law: the JSON document of a metadata record parses back to a record with
/// identical name, description, image and attribute list, order preserved.
pub proof fn lemma_metadata_round_trip(m: MetaV)
    ensures
        parse_metadata(json_of(m)) == Some(m),
{
    let s = json_of(m);
    let l1 = "{\"name\":\""@;
    let l2 = ",\"description\":\""@;
    let l3 = ",\"image\":\""@;
    let l4 = ",\"attributes\":["@;
    reveal_strlit("{\"name\":\"");
    reveal_strlit("\",\"description\":\"");
    reveal_strlit(",\"description\":\"");
    reveal_strlit("\",\"image\":\"");
    reveal_strlit(",\"image\":\"");
    reveal_strlit("\",\"attributes\":[");
    reveal_strlit(",\"attributes\":[");
    reveal_strlit("]}");
    reveal_strlit("}");
    let w = "}"@;
    let a = attrs_json(m.attributes) + seq![']'] + w;
    let x3 = esc(m.image) + seq!['"'] + (l4 + a);
    let x2 = esc(m.description) + seq!['"'] + (l3 + x3);
    let x1 = esc(m.name) + seq!['"'] + (l2 + x2);
    assert("\",\"description\":\""@ =~= seq!['"'] + l2);
    assert("\",\"image\":\""@ =~= seq!['"'] + l3);
    assert("\",\"attributes\":["@ =~= seq!['"'] + l4);
    assert("]}"@ =~= seq![']'] + "}"@);
    assert(s =~= l1 + x1);
    lemma_parse_lit(l1, x1);
    lemma_parse_string_esc(m.name, l2 + x2);
    lemma_parse_lit(l2, x2);
    lemma_parse_string_esc(m.description, l3 + x3);
    lemma_parse_lit(l3, x3);
    lemma_parse_string_esc(m.image, l4 + a);
    lemma_parse_lit(l4, a);
    lemma_parse_attrs_json(m.attributes, w);
    assert(parse_metadata(s) == Some(
        MetaV {
            name: m.name,
            description: m.description,
            image: m.image,
            attributes: m.attributes,
        },
    ));
    assert(MetaV {
        name: m.name,
        description: m.description,
        image: m.image,
        attributes: m.attributes,
    } =~= m);
}

} // verus!
