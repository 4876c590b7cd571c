// sqlite JSONB binary encoder (https://sqlite.org/jsonb.html).
//
// each element = [header byte][optional extra length bytes][payload].
// header byte = SSSSTTTT where TTTT is the element type and SSSS the size class:
//   0..=11 : literal payload length
//   12     : 1-byte length follows
//   13     : 2-byte length follows (big-endian)
//   14     : 4-byte length follows
//   15     : 8-byte length follows
use vstd::prelude::*;
use crate::domain::osm_relation::entity::{osm_member_type, osm_relation, osm_relation_member};
use crate::domain::osm_relation::payload::{member_code, member_type_code};
use crate::domain::osm_way::entity::osm_way;
use crate::pbf::tag_policy::{tag_text, tags_view};

verus! {

pub const TYPE_INT: u8 = 3;

pub const TYPE_FLOAT: u8 = 5;

pub const TYPE_TEXTRAW: u8 = 10;

pub const TYPE_ARRAY: u8 = 11;

pub const TYPE_OBJECT: u8 = 12;

/// The low byte of `n`.
pub open spec fn low_byte(n: nat) -> u8 {
    (n % 256) as u8
}

/// `n` as two big-endian bytes.
pub open spec fn be2(n: nat) -> Seq<u8> {
    seq![low_byte(n / 0x100), low_byte(n)]
}

/// `n` as four big-endian bytes.
pub open spec fn be4(n: nat) -> Seq<u8> {
    seq![low_byte(n / 0x100_0000), low_byte(n / 0x1_0000), low_byte(n / 0x100), low_byte(n)]
}

/// `n` as eight big-endian bytes.
pub open spec fn be8(n: nat) -> Seq<u8> {
    seq![
        low_byte(n / 0x100_0000_0000_0000),
        low_byte(n / 0x1_0000_0000_0000),
        low_byte(n / 0x100_0000_0000),
        low_byte(n / 0x1_0000_0000),
        low_byte(n / 0x100_0000),
        low_byte(n / 0x1_0000),
        low_byte(n / 0x100),
        low_byte(n),
    ]
}

/// The header of an element of type `t` whose payload is `len` bytes long: the smallest
/// size class that can hold `len`.
#[verifier::opaque]
pub open spec fn header_bytes(t: u8, len: nat) -> Seq<u8> {
    if len <= 11 {
        seq![(len * 16 + t) as u8]
    } else if len <= 0xFF {
        seq![(12 * 16 + t) as u8, len as u8]
    } else if len <= 0xFFFF {
        seq![(13 * 16 + t) as u8] + be2(len)
    } else if len <= 0xFFFF_FFFF {
        seq![(14 * 16 + t) as u8] + be4(len)
    } else {
        seq![(15 * 16 + t) as u8] + be8(len)
    }
}

/// A whole element: its header followed by its payload.
pub open spec fn element(t: u8, payload: Seq<u8>) -> Seq<u8> {
    header_bytes(t, payload.len()) + payload
}

/// ASCII decimal digits of `m`, most significant first, without leading zeros.
pub open spec fn decimal_digits(m: nat) -> Seq<u8>
    decreases m,
{
    if m < 10 {
        seq![(48 + m) as u8]
    } else {
        decimal_digits(m / 10) + seq![(48 + m % 10) as u8]
    }
}

/// The decimal text of `n`, as `i64`'s `Display` writes it.
pub open spec fn decimal_text(n: int) -> Seq<u8> {
    if n < 0 {
        seq![45u8] + decimal_digits((-n) as nat)
    } else {
        decimal_digits(n as nat)
    }
}

/// An integer element.
pub open spec fn int_element(n: int) -> Seq<u8> {
    element(TYPE_INT, decimal_text(n))
}

/// A text element holding the UTF-8 bytes of `s`.
pub open spec fn text_element(s: Seq<char>) -> Seq<u8> {
    element(TYPE_TEXTRAW, vstd::utf8::encode_utf8(s))
}

/// A float element whose payload is the decimal text `s`.
pub open spec fn float_element(s: Seq<char>) -> Seq<u8> {
    element(TYPE_FLOAT, vstd::utf8::encode_utf8(s))
}

fn push_be(out: &mut Vec<u8>, v: u64, shift: u64)
    requires
        shift < 64,
    ensures
        final(out)@ == old(out)@.push(((v >> shift) & 0xff) as u8),
{
    out.push(((v >> shift) & 0xff) as u8);
}

/// Appends the header of an element of type `jsonb_type` with a `payload_len`-byte payload.
pub fn write_header(out: &mut Vec<u8>, jsonb_type: u8, payload_len: usize)
    requires
        jsonb_type < 16,
    ensures
        final(out)@ == old(out)@ + header_bytes(jsonb_type, payload_len as nat),
{
    reveal(header_bytes);
    let ghost n = payload_len as nat;
    if payload_len <= 11 {
        let b = ((payload_len as u8) << 4u8) | jsonb_type;
        assert(b == (payload_len * 16 + jsonb_type) as u8) by (bit_vector)
            requires
                payload_len <= 11,
                jsonb_type < 16,
                b == ((payload_len as u8) << 4u8) | jsonb_type,
        ;
        out.push(b);
    } else if payload_len <= 0xFF {
        let b = (12u8 << 4u8) | jsonb_type;
        assert(b == (12 * 16 + jsonb_type) as u8) by (bit_vector)
            requires
                jsonb_type < 16,
                b == (12u8 << 4u8) | jsonb_type,
        ;
        out.push(b);
        out.push(payload_len as u8);
    } else if payload_len <= 0xFFFF {
        let b = (13u8 << 4u8) | jsonb_type;
        assert(b == (13 * 16 + jsonb_type) as u8) by (bit_vector)
            requires
                jsonb_type < 16,
                b == (13u8 << 4u8) | jsonb_type,
        ;
        let v = payload_len as u64;
        out.push(b);
        push_be(out, v, 8);
        push_be(out, v, 0);
        proof {
            lemma_be_bytes(v);
        }
    } else if payload_len as u64 <= 0xFFFF_FFFF {
        let b = (14u8 << 4u8) | jsonb_type;
        assert(b == (14 * 16 + jsonb_type) as u8) by (bit_vector)
            requires
                jsonb_type < 16,
                b == (14u8 << 4u8) | jsonb_type,
        ;
        let v = payload_len as u64;
        out.push(b);
        push_be(out, v, 24);
        push_be(out, v, 16);
        push_be(out, v, 8);
        push_be(out, v, 0);
        proof {
            lemma_be_bytes(v);
        }
    } else {
        let b = (15u8 << 4u8) | jsonb_type;
        assert(b == (15 * 16 + jsonb_type) as u8) by (bit_vector)
            requires
                jsonb_type < 16,
                b == (15u8 << 4u8) | jsonb_type,
        ;
        let v = payload_len as u64;
        out.push(b);
        push_be(out, v, 56);
        push_be(out, v, 48);
        push_be(out, v, 40);
        push_be(out, v, 32);
        push_be(out, v, 24);
        push_be(out, v, 16);
        push_be(out, v, 8);
        push_be(out, v, 0);
        proof {
            lemma_be_bytes(v);
        }
    }
    assert(final(out)@ =~= old(out)@ + header_bytes(jsonb_type, n));
}

proof fn lemma_be_bytes(v: u64)
    ensures
        ((v >> 56u64) & 0xff) as u8 == low_byte(v as nat / 0x100_0000_0000_0000),
        ((v >> 48u64) & 0xff) as u8 == low_byte(v as nat / 0x1_0000_0000_0000),
        ((v >> 40u64) & 0xff) as u8 == low_byte(v as nat / 0x100_0000_0000),
        ((v >> 32u64) & 0xff) as u8 == low_byte(v as nat / 0x1_0000_0000),
        ((v >> 24u64) & 0xff) as u8 == low_byte(v as nat / 0x100_0000),
        ((v >> 16u64) & 0xff) as u8 == low_byte(v as nat / 0x1_0000),
        ((v >> 8u64) & 0xff) as u8 == low_byte(v as nat / 0x100),
        ((v >> 0u64) & 0xff) as u8 == low_byte(v as nat),
{
    assert(((v >> 56u64) & 0xff) as u8 == ((v / 0x100_0000_0000_0000) % 256) as u8) by (bit_vector);
    assert(((v >> 48u64) & 0xff) as u8 == ((v / 0x1_0000_0000_0000) % 256) as u8) by (bit_vector);
    assert(((v >> 40u64) & 0xff) as u8 == ((v / 0x100_0000_0000) % 256) as u8) by (bit_vector);
    assert(((v >> 32u64) & 0xff) as u8 == ((v / 0x1_0000_0000) % 256) as u8) by (bit_vector);
    assert(((v >> 24u64) & 0xff) as u8 == ((v / 0x100_0000) % 256) as u8) by (bit_vector);
    assert(((v >> 16u64) & 0xff) as u8 == ((v / 0x1_0000) % 256) as u8) by (bit_vector);
    assert(((v >> 8u64) & 0xff) as u8 == ((v / 0x100) % 256) as u8) by (bit_vector);
    assert(((v >> 0u64) & 0xff) as u8 == (v % 256) as u8) by (bit_vector);
}

/// Appends the decimal digits of `m`.
fn push_digits(out: &mut Vec<u8>, m: u64)
    ensures
        final(out)@ == old(out)@ + decimal_digits(m as nat),
    decreases m,
{
    if m >= 10 {
        push_digits(out, m / 10);
    }
    out.push(48u8 + (m % 10) as u8);
    assert(final(out)@ =~= old(out)@ + decimal_digits(m as nat));
}

/// The decimal text of `n`.
pub fn decimal(n: i64) -> (s: Vec<u8>)
    ensures
        s@ == decimal_text(n as int),
{
    let mut s: Vec<u8> = Vec::new();
    if n < 0 {
        s.push(45u8);
        let magnitude: u64 = if n == i64::MIN {
            0x8000_0000_0000_0000u64
        } else {
            (-n) as u64
        };
        push_digits(&mut s, magnitude);
        assert(s@ =~= decimal_text(n as int));
    } else {
        push_digits(&mut s, n as u64);
        assert(s@ =~= decimal_text(n as int));
    }
    s
}

/// Appends `bytes` to `out`.
pub fn append_bytes(out: &mut Vec<u8>, bytes: &[u8])
    ensures
        final(out)@ == old(out)@ + bytes@,
{
    let ghost start = out@;
    let mut i: usize = 0;
    while i < bytes.len()
        invariant
            i <= bytes@.len(),
            out@ == start + bytes@.subrange(0, i as int),
        decreases bytes@.len() - i,
    {
        out.push(bytes[i]);
        i = i + 1;
        assert(out@ =~= start + bytes@.subrange(0, i as int));
    }
    assert(bytes@.subrange(0, i as int) =~= bytes@);
}

/// Appends an integer element.
pub fn write_int(out: &mut Vec<u8>, n: i64)
    ensures
        final(out)@ == old(out)@ + int_element(n as int),
{
    let s = decimal(n);
    write_header(out, TYPE_INT, s.len());
    append_bytes(out, s.as_slice());
    assert(final(out)@ =~= old(out)@ + int_element(n as int));
}

/// Appends a float element whose payload is the decimal text `s`.
pub fn write_float_text(out: &mut Vec<u8>, s: &str)
    ensures
        final(out)@ == old(out)@ + float_element(s@),
{
    let bytes = s.as_bytes();
    write_header(out, TYPE_FLOAT, bytes.len());
    append_bytes(out, bytes);
    assert(final(out)@ =~= old(out)@ + float_element(s@));
}

/// Appends a text element holding the UTF-8 bytes of `s`.
pub fn write_text(out: &mut Vec<u8>, s: &str)
    ensures
        final(out)@ == old(out)@ + text_element(s@),
{
    let bytes = s.as_bytes();
    write_header(out, TYPE_TEXTRAW, bytes.len());
    append_bytes(out, bytes);
    assert(final(out)@ =~= old(out)@ + text_element(s@));
}


/// The body of a tags object: each key followed by its value, in order.
pub open spec fn tags_payload(tags: Seq<tag_text>) -> Seq<u8>
    decreases tags.len(),
{
    if tags.len() == 0 {
        seq![]
    } else {
        tags_payload(tags.drop_last()) + text_element(tags.last().0) + text_element(tags.last().1)
    }
}

/// The body of an array of integers.
pub open spec fn ints_payload(values: Seq<i64>) -> Seq<u8>
    decreases values.len(),
{
    if values.len() == 0 {
        seq![]
    } else {
        ints_payload(values.drop_last()) + int_element(values.last() as int)
    }
}

/// A relation member as values: its kind, its id and its role.
pub type member_text = (osm_member_type, i64, Seq<char>);

/// The members of a relation as values.
pub open spec fn members_view(members: Seq<osm_relation_member>) -> Seq<member_text> {
    members.map_values(|m: osm_relation_member| (m.osm_member_type, m.id, m.role@))
}

/// The object `{type, id, role}` of a member.
pub open spec fn member_payload(m: member_text) -> Seq<u8> {
    element(
        TYPE_OBJECT,
        text_element("type"@) + text_element(member_code(m.0)) + text_element("id"@)
            + int_element(m.1 as int) + text_element("role"@) + text_element(m.2),
    )
}

/// The body of the members array.
pub open spec fn members_payload(members: Seq<member_text>) -> Seq<u8>
    decreases members.len(),
{
    if members.len() == 0 {
        seq![]
    } else {
        members_payload(members.drop_last()) + member_payload(members.last())
    }
}

/// The payload of a way: `{refs, tags}`.
pub open spec fn way_payload(refs: Seq<i64>, tags: Seq<tag_text>) -> Seq<u8> {
    element(
        TYPE_OBJECT,
        text_element("refs"@) + element(TYPE_ARRAY, ints_payload(refs)) + text_element("tags"@)
            + element(TYPE_OBJECT, tags_payload(tags)),
    )
}

/// The payload of a relation: `{tags, members}`.
pub open spec fn relation_payload(tags: Seq<tag_text>, members: Seq<member_text>) -> Seq<u8> {
    element(
        TYPE_OBJECT,
        text_element("tags"@) + element(TYPE_OBJECT, tags_payload(tags)) + text_element(
            "members"@,
        ) + element(TYPE_ARRAY, members_payload(members)),
    )
}

/// The payload of a node: `{lat, lon, tags}`, the coordinates as the decimal texts given.
pub open spec fn node_payload(lat: Seq<char>, lon: Seq<char>, tags: Seq<tag_text>) -> Seq<u8> {
    element(
        TYPE_OBJECT,
        text_element("lat"@) + float_element(lat) + text_element("lon"@) + float_element(lon)
            + text_element("tags"@) + element(TYPE_OBJECT, tags_payload(tags)),
    )
}

/// Appends the body of a tags object.
pub fn write_tags(out: &mut Vec<u8>, tags: &Vec<(String, String)>)
    ensures
        final(out)@ == old(out)@ + tags_payload(tags_view(tags@)),
{
    let ghost start = out@;
    let ghost view = tags_view(tags@);
    let mut i: usize = 0;
    while i < tags.len()
        invariant
            i <= tags@.len(),
            view == tags_view(tags@),
            out@ == start + tags_payload(view.subrange(0, i as int)),
        decreases tags@.len() - i,
    {
        write_text(out, tags[i].0.as_str());
        write_text(out, tags[i].1.as_str());
        proof {
            assert(view.subrange(0, i + 1).drop_last() =~= view.subrange(0, i as int));
        }
        i = i + 1;
        assert(out@ =~= start + tags_payload(view.subrange(0, i as int)));
    }
    assert(view.subrange(0, i as int) =~= view);
}

/// Appends the body of an array of integers.
pub fn write_ints(out: &mut Vec<u8>, values: &Vec<i64>)
    ensures
        final(out)@ == old(out)@ + ints_payload(values@),
{
    let ghost start = out@;
    let mut i: usize = 0;
    while i < values.len()
        invariant
            i <= values@.len(),
            out@ == start + ints_payload(values@.subrange(0, i as int)),
        decreases values@.len() - i,
    {
        write_int(out, values[i]);
        proof {
            assert(values@.subrange(0, i + 1).drop_last() =~= values@.subrange(0, i as int));
        }
        i = i + 1;
        assert(out@ =~= start + ints_payload(values@.subrange(0, i as int)));
    }
    assert(values@.subrange(0, i as int) =~= values@);
}

/// The JSONB writer. It keeps a pool of scratch buffers — popped to build a nested object or
/// array, pushed back once written — so that after warmup no row allocates; every pooled buffer
/// is empty.
pub struct encoder {
    scratches: Vec<Vec<u8>>,
}

impl encoder {
    /// Every pooled buffer is empty.
    pub closed spec fn wf(self) -> bool {
        forall|i: int| 0 <= i < self.scratches@.len() ==> #[trigger] self.scratches@[i]@.len() == 0
    }

    /// How many scratch buffers the pool holds.
    pub closed spec fn pooled(self) -> nat {
        self.scratches@.len()
    }

    /// An encoder with an empty pool.
    pub fn new() -> (e: Self)
        ensures
            e.wf(),
            e.pooled() == 0,
    {
        encoder { scratches: Vec::with_capacity(4) }
    }

    /// How many scratch buffers the pool holds.
    pub fn pooled_buffers(&self) -> (n: usize)
        ensures
            n == self.pooled(),
    {
        self.scratches.len()
    }

    /// An empty buffer: a pooled one when there is one.
    fn alloc_scratch(&mut self) -> (buf: Vec<u8>)
        requires
            old(self).wf(),
        ensures
            final(self).wf(),
            buf@.len() == 0,
            final(self).pooled() == if old(self).pooled() > 0 {
                old(self).pooled() - 1
            } else {
                0
            },
    {
        match self.scratches.pop() {
            Some(buf) => buf,
            None => Vec::with_capacity(256),
        }
    }

    /// Returns `buf` to the pool, emptied.
    fn free(&mut self, buf: Vec<u8>)
        requires
            old(self).wf(),
        ensures
            final(self).wf(),
            final(self).pooled() == old(self).pooled() + 1,
    {
        let mut buf = buf;
        buf.clear();
        self.scratches.push(buf);
    }

    /// Appends an object whose body is `body`, and takes `body` back into the pool.
    pub fn write_object(&mut self, out: &mut Vec<u8>, body: Vec<u8>)
        requires
            old(self).wf(),
        ensures
            final(self).wf(),
            final(out)@ == old(out)@ + element(TYPE_OBJECT, body@),
            final(self).pooled() == old(self).pooled() + 1,
    {
        let mut body = body;
        let ghost payload = body@;
        write_header(out, TYPE_OBJECT, body.len());
        out.append(&mut body);
        self.free(body);
    }

    /// Appends an array whose body is `body`, and takes `body` back into the pool.
    pub fn write_array(&mut self, out: &mut Vec<u8>, body: Vec<u8>)
        requires
            old(self).wf(),
        ensures
            final(self).wf(),
            final(out)@ == old(out)@ + element(TYPE_ARRAY, body@),
            final(self).pooled() == old(self).pooled() + 1,
    {
        let mut body = body;
        write_header(out, TYPE_ARRAY, body.len());
        out.append(&mut body);
        self.free(body);
    }

    /// Appends the node object `{lat, lon, tags}`; `lat` and `lon` are the decimal texts of the
    /// coordinates.
    pub fn encode_osm_node(
        &mut self,
        out: &mut Vec<u8>,
        lat: &str,
        lon: &str,
        tags: &Vec<(String, String)>,
    )
        requires
            old(self).wf(),
        ensures
            final(self).wf(),
            final(out)@ == old(out)@ + node_payload(lat@, lon@, tags_view(tags@)),
            final(self).pooled() >= old(self).pooled(),
            final(self).pooled() >= 2,
    {
        let mut body = self.alloc_scratch();
        write_text(&mut body, "lat");
        write_float_text(&mut body, lat);
        write_text(&mut body, "lon");
        write_float_text(&mut body, lon);
        write_text(&mut body, "tags");
        let mut tags_body = self.alloc_scratch();
        write_tags(&mut tags_body, tags);
        self.write_object(&mut body, tags_body);
        let ghost b = body@;
        self.write_object(out, body);
        assert(b =~= text_element("lat"@) + float_element(lat@) + text_element("lon"@)
            + float_element(lon@) + text_element("tags"@) + element(
            TYPE_OBJECT,
            tags_payload(tags_view(tags@)),
        ));
    }

    /// Appends the way object `{refs, tags}`.
    pub fn encode_osm_way(&mut self, out: &mut Vec<u8>, way: &osm_way)
        requires
            old(self).wf(),
        ensures
            final(self).wf(),
            final(out)@ == old(out)@ + way_payload(way.refs@, tags_view(way.tags@)),
            final(self).pooled() >= old(self).pooled(),
            final(self).pooled() >= 2,
    {
        let mut body = self.alloc_scratch();
        write_text(&mut body, "refs");
        let mut refs_body = self.alloc_scratch();
        write_ints(&mut refs_body, &way.refs);
        self.write_array(&mut body, refs_body);
        write_text(&mut body, "tags");
        let mut tags_body = self.alloc_scratch();
        write_tags(&mut tags_body, &way.tags);
        self.write_object(&mut body, tags_body);
        let ghost b = body@;
        self.write_object(out, body);
        assert(b =~= text_element("refs"@) + element(TYPE_ARRAY, ints_payload(way.refs@))
            + text_element("tags"@) + element(TYPE_OBJECT, tags_payload(tags_view(way.tags@))));
    }

    /// Appends the members array body of a relation.
    fn write_members(&mut self, out: &mut Vec<u8>, members: &Vec<osm_relation_member>)
        requires
            old(self).wf(),
        ensures
            final(self).wf(),
            final(out)@ == old(out)@ + members_payload(members_view(members@)),
            final(self).pooled() >= old(self).pooled(),
            final(self).pooled() >= 1,
    {
        let ghost start = out@;
        let ghost view = members_view(members@);
        let mut i: usize = 0;
        if members.len() == 0 {
            let b = self.alloc_scratch();
            self.free(b);
        }
        while i < members.len()
            invariant
                i <= members@.len(),
                view == members_view(members@),
                out@ == start + members_payload(view.subrange(0, i as int)),
                self.wf(),
                self.pooled() >= old(self).pooled(),
                self.pooled() >= 1 || (i == 0 && members@.len() > 0),
            decreases members@.len() - i,
        {
            let m = &members[i];
            let mut body = self.alloc_scratch();
            write_text(&mut body, "type");
            write_text(&mut body, member_type_code(&m.osm_member_type));
            write_text(&mut body, "id");
            write_int(&mut body, m.id);
            write_text(&mut body, "role");
            write_text(&mut body, m.role.as_str());
            let ghost b = body@;
            self.write_object(out, body);
            proof {
                assert(b =~= text_element("type"@) + text_element(member_code(m.osm_member_type))
                    + text_element("id"@) + int_element(m.id as int) + text_element("role"@)
                    + text_element(m.role@));
                assert(view.subrange(0, i + 1).drop_last() =~= view.subrange(0, i as int));
            }
            i = i + 1;
            assert(out@ =~= start + members_payload(view.subrange(0, i as int)));
        }
        assert(view.subrange(0, i as int) =~= view);
    }

    /// Appends the relation object `{tags, members}`.
    pub fn encode_osm_relation(&mut self, out: &mut Vec<u8>, rel: &osm_relation)
        requires
            old(self).wf(),
        ensures
            final(self).wf(),
            final(out)@ == old(out)@ + relation_payload(
                tags_view(rel.tags@),
                members_view(rel.members@),
            ),
            final(self).pooled() >= old(self).pooled(),
            final(self).pooled() >= 2,
    {
        let mut body = self.alloc_scratch();
        write_text(&mut body, "tags");
        let mut tags_body = self.alloc_scratch();
        write_tags(&mut tags_body, &rel.tags);
        self.write_object(&mut body, tags_body);
        write_text(&mut body, "members");
        let mut members_body = self.alloc_scratch();
        self.write_members(&mut members_body, &rel.members);
        self.write_array(&mut body, members_body);
        let ghost b = body@;
        self.write_object(out, body);
        assert(b =~= text_element("tags"@) + element(
            TYPE_OBJECT,
            tags_payload(tags_view(rel.tags@)),
        ) + text_element("members"@) + element(
            TYPE_ARRAY,
            members_payload(members_view(rel.members@)),
        ));
    }
}

} // verus!
