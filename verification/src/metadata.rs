//! Record widths, IP version tags, and the metadata record that ends a
//! database file.
use vstd::prelude::*;

use crate::serializer::{
    spec_control_bytes, spec_enc_text, spec_enc_uint, spec_str_bytes, write_control, write_str,
    write_uint, Error, TypeId, MAX_LENGTH,
};

verus! {

/// Width of one child pointer in an on-disk trie record: 24, 28 or 32 bits.
#[derive(Clone, Copy, Debug, PartialEq, Eq, Structural)]
pub enum RecordSize {
    Small,
    Medium,
    Large,
}

impl RecordSize {
    /// The smallest record width whose pointers can hold `max_ptr_value`,
    /// every value at or above 1 << 28 falling to the largest width.
    pub open spec fn spec_for_max_ptr(max_ptr_value: int) -> RecordSize {
        if max_ptr_value < 0x100_0000 {
            RecordSize::Small
        } else if max_ptr_value < 0x1000_0000 {
            RecordSize::Medium
        } else {
            RecordSize::Large
        }
    }

    /// Number of bits of one pointer at this width.
    pub open spec fn spec_bits(self) -> int {
        match self {
            RecordSize::Small => 24,
            RecordSize::Medium => 28,
            RecordSize::Large => 32,
        }
    }

    /// Number of bits of one pointer at this width.
    pub fn bits(self) -> (r: u16)
        ensures
            r == self.spec_bits(),
    {
        match self {
            RecordSize::Small => 24,
            RecordSize::Medium => 28,
            RecordSize::Large => 32,
        }
    }

    /// The smallest record width whose pointers can hold `max_ptr_value`.
    /// A value at or above 1 << 32 gets the largest width even though it
    /// cannot be represented there; callers keep pointers below that bound.
    pub fn for_max_ptr(max_ptr_value: usize) -> (r: RecordSize)
        ensures
            r == RecordSize::spec_for_max_ptr(max_ptr_value as int),
            r == RecordSize::Small <==> max_ptr_value < 0x100_0000,
            r == RecordSize::Medium <==> (0x100_0000 <= max_ptr_value < 0x1000_0000),
            r == RecordSize::Large <==> max_ptr_value >= 0x1000_0000,
    {
        if max_ptr_value < 0x100_0000 {
            RecordSize::Small
        } else if max_ptr_value < 0x1000_0000 {
            RecordSize::Medium
        } else {
            RecordSize::Large
        }
    }
}

/// IP version of the addresses a database indexes.
#[derive(Clone, Copy, Debug, PartialEq, Eq, Structural)]
pub enum IpVersion {
    V4,
    V6,
}

impl IpVersion {
    /// The version number written into the metadata record.
    pub open spec fn spec_num(self) -> int {
        match self {
            IpVersion::V4 => 4,
            IpVersion::V6 => 6,
        }
    }

    /// The version number written into the metadata record.
    pub fn num(self) -> (r: u16)
        ensures
            r == self.spec_num(),
    {
        match self {
            IpVersion::V4 => 4,
            IpVersion::V6 => 6,
        }
    }
}

/// The 14-byte marker that separates the data section from the metadata.
pub open spec fn spec_metadata_marker() -> Seq<u8> {
    seq![
        0xabu8,
        0xcdu8,
        0xefu8,
        0x4du8,
        0x61u8,
        0x78u8,
        0x4du8,
        0x69u8,
        0x6eu8,
        0x64u8,
        0x2eu8,
        0x63u8,
        0x6fu8,
        0x6du8,
    ]
}

/// Appends the metadata start marker: the bytes `AB CD EF` followed by
/// `MaxMind.com` in ASCII.
pub fn write_metadata_marker(out: &mut Vec<u8>)
    ensures
        final(out)@ == old(out)@ + spec_metadata_marker(),
{
    out.push(0xab);
    out.push(0xcd);
    out.push(0xef);
    out.push(0x4d);
    out.push(0x61);
    out.push(0x78);
    out.push(0x4d);
    out.push(0x69);
    out.push(0x6e);
    out.push(0x64);
    out.push(0x2e);
    out.push(0x63);
    out.push(0x6f);
    out.push(0x6d);
    proof {
        assert(out@ =~= old(out)@ + spec_metadata_marker());
    }
}

/// The metadata record that ends a database file.  `node_count` and
/// `record_size` are derived from the trie and the data section; the other
/// fields are caller-set.
#[derive(Clone, Debug)]
pub struct Metadata {
    pub node_count: u32,
    pub record_size: RecordSize,
    pub ip_version: IpVersion,
    pub database_type: String,
    pub languages: Vec<String>,
    pub binary_format_major_version: u16,
    pub binary_format_minor_version: u16,
    pub build_epoch: u64,
    pub description: Vec<(String, String)>,
}

impl Default for Metadata {
    /// Metadata of an empty version-4 database with no descriptive fields.
    fn default() -> (r: Metadata)
        ensures
            r.node_count == 0,
            r.record_size == RecordSize::Small,
            r.ip_version == IpVersion::V4,
            r.database_type@ == Seq::<char>::empty(),
            r.languages@ == Seq::<String>::empty(),
            r.binary_format_major_version == 0,
            r.binary_format_minor_version == 0,
            r.build_epoch == 0,
            r.description@ == Seq::<(String, String)>::empty(),
    {
        Metadata {
            node_count: 0,
            record_size: RecordSize::Small,
            ip_version: IpVersion::V4,
            database_type: String::new(),
            languages: Vec::new(),
            binary_format_major_version: 0,
            binary_format_minor_version: 0,
            build_epoch: 0,
            description: Vec::new(),
        }
    }
}

/// Concatenated text encodings of a sequence of strings.
pub open spec fn spec_enc_text_list(s: Seq<String>) -> Seq<u8>
    decreases s.len(),
{
    if s.len() == 0 {
        Seq::empty()
    } else {
        spec_enc_text(s[0]@) + spec_enc_text_list(s.drop_first())
    }
}

/// Concatenated text encodings of a sequence of string pairs, key first.
pub open spec fn spec_enc_text_entries(s: Seq<(String, String)>) -> Seq<u8>
    decreases s.len(),
{
    if s.len() == 0 {
        Seq::empty()
    } else {
        spec_enc_text(s[0].0@) + spec_enc_text(s[0].1@) + spec_enc_text_entries(s.drop_first())
    }
}

/// Whether every caller-set payload of the metadata stays within the
/// largest encodable length; the fixed field names always do.
pub open spec fn spec_metadata_fits(m: Metadata) -> bool {
    &&& spec_str_bytes(m.database_type@).len() <= MAX_LENGTH
    &&& m.languages@.len() <= MAX_LENGTH
    &&& forall|i: int|
        0 <= i < m.languages@.len() ==> spec_str_bytes(#[trigger] m.languages@[i]@).len()
            <= MAX_LENGTH
    &&& m.description@.len() <= MAX_LENGTH
    &&& forall|i: int|
        #![trigger m.description@[i]]
        0 <= i < m.description@.len() ==> spec_str_bytes(m.description@[i].0@).len() <= MAX_LENGTH
            && spec_str_bytes(m.description@[i].1@).len() <= MAX_LENGTH
}

/// Leading part of the metadata record: the map's control bytes and the
/// three derived numeric fields, up to and including the name of the
/// `database_type` field.
pub open spec fn spec_md_head(m: Metadata) -> Seq<u8> {
    spec_control_bytes(7, 9) + spec_enc_text("node_count"@) + spec_enc_uint(6, m.node_count as nat)
        + spec_enc_text("record_size"@) + spec_enc_uint(5, m.record_size.spec_bits() as nat)
        + spec_enc_text("ip_version"@) + spec_enc_uint(5, m.ip_version.spec_num() as nat)
        + spec_enc_text("database_type"@)
}

/// The `languages` field: its name and an array of strings.
pub open spec fn spec_md_langs(m: Metadata) -> Seq<u8> {
    spec_enc_text("languages"@) + spec_control_bytes(11, m.languages@.len() as int)
        + spec_enc_text_list(m.languages@)
}

/// The format version and build epoch fields, up to and including the name
/// of the `description` field.
pub open spec fn spec_md_tail(m: Metadata) -> Seq<u8> {
    spec_enc_text("binary_format_major_version"@) + spec_enc_uint(
        5,
        m.binary_format_major_version as nat,
    ) + spec_enc_text("binary_format_minor_version"@) + spec_enc_uint(
        5,
        m.binary_format_minor_version as nat,
    ) + spec_enc_text("build_epoch"@) + spec_enc_uint(9, m.build_epoch as nat) + spec_enc_text(
        "description"@,
    )
}

/// The `description` field's value: a map of string pairs.
pub open spec fn spec_md_desc(m: Metadata) -> Seq<u8> {
    spec_control_bytes(7, m.description@.len() as int) + spec_enc_text_entries(m.description@)
}

/// The encoding of the whole metadata record: a map of nine entries whose
/// keys are the fixed field names, in declaration order.
pub open spec fn spec_metadata_bytes(m: Metadata) -> Seq<u8> {
    spec_md_head(m) + spec_enc_text(m.database_type@) + spec_md_langs(m) + spec_md_tail(m)
        + spec_md_desc(m)
}

/// The nine field names are short ASCII strings, so their encodings always
/// fit a single control byte.
proof fn lemma_field_names_fit()
    ensures
        spec_str_bytes("node_count"@).len() < 29,
        spec_str_bytes("record_size"@).len() < 29,
        spec_str_bytes("ip_version"@).len() < 29,
        spec_str_bytes("database_type"@).len() < 29,
        spec_str_bytes("languages"@).len() < 29,
        spec_str_bytes("binary_format_major_version"@).len() < 29,
        spec_str_bytes("binary_format_minor_version"@).len() < 29,
        spec_str_bytes("build_epoch"@).len() < 29,
        spec_str_bytes("description"@).len() < 29,
{
    reveal_strlit("node_count");
    reveal_strlit("record_size");
    reveal_strlit("ip_version");
    reveal_strlit("database_type");
    reveal_strlit("languages");
    reveal_strlit("binary_format_major_version");
    reveal_strlit("binary_format_minor_version");
    reveal_strlit("build_epoch");
    reveal_strlit("description");
    assert(vstd::utf8::is_ascii_chars("node_count"@));
    assert(vstd::utf8::is_ascii_chars("record_size"@));
    assert(vstd::utf8::is_ascii_chars("ip_version"@));
    assert(vstd::utf8::is_ascii_chars("database_type"@));
    assert(vstd::utf8::is_ascii_chars("languages"@));
    assert(vstd::utf8::is_ascii_chars("binary_format_major_version"@));
    assert(vstd::utf8::is_ascii_chars("binary_format_minor_version"@));
    assert(vstd::utf8::is_ascii_chars("build_epoch"@));
    assert(vstd::utf8::is_ascii_chars("description"@));
    vstd::utf8::is_ascii_chars_encode_utf8("node_count"@);
    vstd::utf8::is_ascii_chars_encode_utf8("record_size"@);
    vstd::utf8::is_ascii_chars_encode_utf8("ip_version"@);
    vstd::utf8::is_ascii_chars_encode_utf8("database_type"@);
    vstd::utf8::is_ascii_chars_encode_utf8("languages"@);
    vstd::utf8::is_ascii_chars_encode_utf8("binary_format_major_version"@);
    vstd::utf8::is_ascii_chars_encode_utf8("binary_format_minor_version"@);
    vstd::utf8::is_ascii_chars_encode_utf8("build_epoch"@);
    vstd::utf8::is_ascii_chars_encode_utf8("description"@);
}

/// Appends the encoding of a string whose single control byte is enough,
/// such as a fixed field name.
fn write_short_str(out: &mut Vec<u8>, s: &str)
    requires
        spec_str_bytes(s@).len() < 29,
    ensures
        final(out)@ == old(out)@ + spec_enc_text(s@),
{
    let _ = write_str(out, s);
}

/// Text list encoding extended by one string.
proof fn lemma_enc_text_list_push(s: Seq<String>, x: String)
    ensures
        spec_enc_text_list(s.push(x)) == spec_enc_text_list(s) + spec_enc_text(x@),
    decreases s.len(),
{
    if s.len() == 0 {
        assert(s.push(x).drop_first() =~= Seq::<String>::empty());
        assert(s.push(x)[0] == x);
        assert(spec_enc_text_list(Seq::<String>::empty()) == Seq::<u8>::empty());
        assert(spec_enc_text_list(s) == Seq::<u8>::empty());
        assert(spec_enc_text_list(s.push(x)) == spec_enc_text(x@) + Seq::<u8>::empty());
        assert(spec_enc_text(x@) + Seq::<u8>::empty() =~= spec_enc_text(x@));
        assert(spec_enc_text_list(s) + spec_enc_text(x@) =~= spec_enc_text(x@));
    } else {
        lemma_enc_text_list_push(s.drop_first(), x);
        assert(s.push(x).drop_first() =~= s.drop_first().push(x));
        assert(s.push(x)[0] == s[0]);
        assert(spec_enc_text_list(s.push(x)) == spec_enc_text(s[0]@) + spec_enc_text_list(
            s.drop_first().push(x),
        ));
        assert((spec_enc_text(s[0]@) + spec_enc_text_list(s.drop_first())) + spec_enc_text(x@)
            =~= spec_enc_text(s[0]@) + (spec_enc_text_list(s.drop_first()) + spec_enc_text(x@)));
    }
}

/// Text entry encoding extended by one pair.
proof fn lemma_enc_text_entries_push(s: Seq<(String, String)>, x: (String, String))
    ensures
        spec_enc_text_entries(s.push(x)) == spec_enc_text_entries(s) + spec_enc_text(x.0@)
            + spec_enc_text(x.1@),
    decreases s.len(),
{
    if s.len() == 0 {
        assert(s.push(x).drop_first() =~= Seq::<(String, String)>::empty());
        assert(s.push(x)[0] == x);
        assert(spec_enc_text_entries(Seq::<(String, String)>::empty()) == Seq::<u8>::empty());
        assert(spec_enc_text_entries(s) == Seq::<u8>::empty());
        assert(spec_enc_text_entries(s.push(x)) == spec_enc_text(x.0@) + spec_enc_text(x.1@)
            + Seq::<u8>::empty());
        assert(spec_enc_text(x.0@) + spec_enc_text(x.1@) + Seq::<u8>::empty() =~= spec_enc_text(
            x.0@,
        ) + spec_enc_text(x.1@));
        assert(spec_enc_text_entries(s) + spec_enc_text(x.0@) + spec_enc_text(x.1@)
            =~= spec_enc_text(x.0@) + spec_enc_text(x.1@));
    } else {
        lemma_enc_text_entries_push(s.drop_first(), x);
        assert(s.push(x).drop_first() =~= s.drop_first().push(x));
        assert(s.push(x)[0] == s[0]);
        assert(spec_enc_text_entries(s.push(x)) == spec_enc_text(s[0].0@) + spec_enc_text(s[0].1@)
            + spec_enc_text_entries(s.drop_first().push(x)));
        assert(spec_enc_text(s[0].0@) + spec_enc_text(s[0].1@) + (spec_enc_text_entries(
            s.drop_first(),
        ) + spec_enc_text(x.0@) + spec_enc_text(x.1@)) =~= (spec_enc_text(s[0].0@)
            + spec_enc_text(s[0].1@) + spec_enc_text_entries(s.drop_first())) + spec_enc_text(
            x.0@,
        ) + spec_enc_text(x.1@));
    }
}

/// Appends an array of strings: a control byte sequence carrying the
/// count, then each string's text encoding.
#[verifier::loop_isolation(false)]
fn write_text_list(out: &mut Vec<u8>, items: &Vec<String>) -> (r: Result<(), Error>)
    ensures
        r is Ok <==> items@.len() <= MAX_LENGTH && (forall|i: int|
            0 <= i < items@.len() ==> spec_str_bytes(#[trigger] items@[i]@).len() <= MAX_LENGTH),
        r is Ok ==> final(out)@ == old(out)@ + spec_control_bytes(11, items@.len() as int)
            + spec_enc_text_list(items@),
        r is Err ==> r == Err::<(), Error>(Error::LengthOutOfRange) && old(out)@.is_prefix_of(
            final(out)@,
        ),
{
    match write_control(out, TypeId::Array, items.len()) {
        Ok(()) => {},
        Err(e) => {
            proof {
                crate::serializer::lemma_prefix_concat(old(out)@, Seq::empty());
                assert(old(out)@ + Seq::<u8>::empty() =~= old(out)@);
            }
            return Err(e);
        },
    }
    let mut i: usize = 0;
    while i < items.len()
        invariant
            i <= items@.len(),
            out@ == old(out)@ + spec_control_bytes(11, items@.len() as int) + spec_enc_text_list(
                items@.take(i as int),
            ),
            forall|j: int|
                0 <= j < i ==> spec_str_bytes(#[trigger] items@[j]@).len() <= MAX_LENGTH,
        decreases items@.len() - i,
    {
        let ghost pre = out@;
        match write_str(out, items[i].as_str()) {
            Ok(()) => {},
            Err(e) => {
                proof {
                    crate::serializer::lemma_prefix_concat(
                        old(out)@,
                        pre.skip(old(out)@.len() as int),
                    );
                    assert(old(out)@ + pre.skip(old(out)@.len() as int) =~= pre);
                    crate::serializer::lemma_prefix_trans(old(out)@, pre, out@);
                }
                return Err(e);
            },
        }
        proof {
            lemma_enc_text_list_push(items@.take(i as int), items@[i as int]);
            assert(items@.take(i as int).push(items@[i as int]) =~= items@.take(i as int + 1));
            assert(out@ =~= old(out)@ + spec_control_bytes(11, items@.len() as int)
                + spec_enc_text_list(items@.take(i as int + 1)));
        }
        i += 1;
    }
    proof {
        assert(items@.take(items@.len() as int) =~= items@);
    }
    Ok(())
}

/// Appends a map of string pairs: a control byte sequence carrying the
/// entry count, then each key's and value's text encoding.
#[verifier::loop_isolation(false)]
fn write_text_pairs(out: &mut Vec<u8>, entries: &Vec<(String, String)>) -> (r: Result<(), Error>)
    ensures
        r is Ok <==> entries@.len() <= MAX_LENGTH && (forall|i: int|
            #![trigger entries@[i]]
            0 <= i < entries@.len() ==> spec_str_bytes(entries@[i].0@).len() <= MAX_LENGTH
                && spec_str_bytes(entries@[i].1@).len() <= MAX_LENGTH),
        r is Ok ==> final(out)@ == old(out)@ + spec_control_bytes(7, entries@.len() as int)
            + spec_enc_text_entries(entries@),
        r is Err ==> r == Err::<(), Error>(Error::LengthOutOfRange) && old(out)@.is_prefix_of(
            final(out)@,
        ),
{
    match write_control(out, TypeId::Mapping, entries.len()) {
        Ok(()) => {},
        Err(e) => {
            proof {
                crate::serializer::lemma_prefix_concat(old(out)@, Seq::empty());
                assert(old(out)@ + Seq::<u8>::empty() =~= old(out)@);
            }
            return Err(e);
        },
    }
    let mut k: usize = 0;
    while k < entries.len()
        invariant
            k <= entries@.len(),
            out@ == old(out)@ + spec_control_bytes(7, entries@.len() as int)
                + spec_enc_text_entries(entries@.take(k as int)),
            forall|j: int|
                #![trigger entries@[j]]
                0 <= j < k ==> spec_str_bytes(entries@[j].0@).len() <= MAX_LENGTH
                    && spec_str_bytes(entries@[j].1@).len() <= MAX_LENGTH,
        decreases entries@.len() - k,
    {
        let ghost pre = out@;
        match write_str(out, entries[k].0.as_str()) {
            Ok(()) => {},
            Err(e) => {
                proof {
                    crate::serializer::lemma_prefix_concat(
                        old(out)@,
                        pre.skip(old(out)@.len() as int),
                    );
                    assert(old(out)@ + pre.skip(old(out)@.len() as int) =~= pre);
                    crate::serializer::lemma_prefix_trans(old(out)@, pre, out@);
                }
                return Err(e);
            },
        }
        let ghost mid = out@;
        match write_str(out, entries[k].1.as_str()) {
            Ok(()) => {},
            Err(e) => {
                proof {
                    crate::serializer::lemma_prefix_concat(
                        old(out)@,
                        mid.skip(old(out)@.len() as int),
                    );
                    assert(old(out)@ + mid.skip(old(out)@.len() as int) =~= mid);
                    crate::serializer::lemma_prefix_trans(old(out)@, mid, out@);
                }
                return Err(e);
            },
        }
        proof {
            lemma_enc_text_entries_push(entries@.take(k as int), entries@[k as int]);
            assert(entries@.take(k as int).push(entries@[k as int]) =~= entries@.take(
                k as int + 1,
            ));
            assert(out@ =~= old(out)@ + spec_control_bytes(7, entries@.len() as int)
                + spec_enc_text_entries(entries@.take(k as int + 1)));
        }
        k += 1;
    }
    proof {
        assert(entries@.take(entries@.len() as int) =~= entries@);
    }
    Ok(())
}

/// Appending `b` after `a` extends the buffer by `a + b` in one step.
pub(crate) proof fn lemma_append_assoc(base: Seq<u8>, a: Seq<u8>, b: Seq<u8>)
    ensures
        (base + a) + b == base + (a + b),
{
    vstd::seq_lib::lemma_concat_associative(base, a, b);
}

impl Metadata {
    /// Appends the leading fields of the record; these never fail.
    #[verifier::rlimit(100)]
    #[verifier::spinoff_prover]
    fn write_head(&self, out: &mut Vec<u8>)
        ensures
            final(out)@ == old(out)@ + spec_md_head(*self),
    {
        proof {
            lemma_field_names_fit();
        }
        let _ = write_control(out, TypeId::Mapping, 9);
        write_short_str(out, "node_count");
        let _ = write_uint(out, TypeId::Uint32, self.node_count as u128);
        write_short_str(out, "record_size");
        let _ = write_uint(out, TypeId::Uint16, self.record_size.bits() as u128);
        write_short_str(out, "ip_version");
        let _ = write_uint(out, TypeId::Uint16, self.ip_version.num() as u128);
        write_short_str(out, "database_type");
        proof {
            let b = old(out)@;
            let p1 = spec_control_bytes(7, 9);
            let p2 = spec_enc_text("node_count"@);
            let p3 = spec_enc_uint(6, self.node_count as nat);
            let p4 = spec_enc_text("record_size"@);
            let p5 = spec_enc_uint(5, self.record_size.spec_bits() as nat);
            let p6 = spec_enc_text("ip_version"@);
            let p7 = spec_enc_uint(5, self.ip_version.spec_num() as nat);
            let p8 = spec_enc_text("database_type"@);
            lemma_append_assoc(b, p1, p2);
            lemma_append_assoc(b, p1 + p2, p3);
            lemma_append_assoc(b, p1 + p2 + p3, p4);
            lemma_append_assoc(b, p1 + p2 + p3 + p4, p5);
            lemma_append_assoc(b, p1 + p2 + p3 + p4 + p5, p6);
            lemma_append_assoc(b, p1 + p2 + p3 + p4 + p5 + p6, p7);
            lemma_append_assoc(b, p1 + p2 + p3 + p4 + p5 + p6 + p7, p8);
        }
    }

    /// Appends the version and epoch fields of the record; these never fail.
    #[verifier::rlimit(100)]
    #[verifier::spinoff_prover]
    fn write_tail(&self, out: &mut Vec<u8>)
        ensures
            final(out)@ == old(out)@ + spec_md_tail(*self),
    {
        proof {
            lemma_field_names_fit();
        }
        write_short_str(out, "binary_format_major_version");
        let _ = write_uint(out, TypeId::Uint16, self.binary_format_major_version as u128);
        write_short_str(out, "binary_format_minor_version");
        let _ = write_uint(out, TypeId::Uint16, self.binary_format_minor_version as u128);
        write_short_str(out, "build_epoch");
        let _ = write_uint(out, TypeId::Uint64, self.build_epoch as u128);
        write_short_str(out, "description");
        proof {
            let b = old(out)@;
            let p1 = spec_enc_text("binary_format_major_version"@);
            let p2 = spec_enc_uint(5, self.binary_format_major_version as nat);
            let p3 = spec_enc_text("binary_format_minor_version"@);
            let p4 = spec_enc_uint(5, self.binary_format_minor_version as nat);
            let p5 = spec_enc_text("build_epoch"@);
            let p6 = spec_enc_uint(9, self.build_epoch as nat);
            let p7 = spec_enc_text("description"@);
            lemma_append_assoc(b, p1, p2);
            lemma_append_assoc(b, p1 + p2, p3);
            lemma_append_assoc(b, p1 + p2 + p3, p4);
            lemma_append_assoc(b, p1 + p2 + p3 + p4, p5);
            lemma_append_assoc(b, p1 + p2 + p3 + p4 + p5, p6);
            lemma_append_assoc(b, p1 + p2 + p3 + p4 + p5 + p6, p7);
        }
    }

    /// Appends the metadata record: a nine-entry map keyed by the fixed
    /// field names, in declaration order.  Fails only when a caller-set
    /// payload exceeds the largest encodable length; on failure the bytes
    /// already written stay in the buffer.
    pub fn write_to(&self, out: &mut Vec<u8>) -> (r: Result<(), Error>)
        ensures
            r is Ok <==> spec_metadata_fits(*self),
            r is Ok ==> final(out)@ == old(out)@ + spec_metadata_bytes(*self),
            r is Err ==> r == Err::<(), Error>(Error::LengthOutOfRange) && old(out)@.is_prefix_of(
                final(out)@,
            ),
    {
        proof {
            lemma_field_names_fit();
        }
        self.write_head(out);
        let ghost head = out@;
        match write_str(out, self.database_type.as_str()) {
            Ok(()) => {},
            Err(e) => {
                proof {
                    crate::serializer::lemma_prefix_concat(
                        old(out)@,
                        head.skip(old(out)@.len() as int),
                    );
                    assert(old(out)@ + head.skip(old(out)@.len() as int) =~= head);
                    crate::serializer::lemma_prefix_trans(old(out)@, head, out@);
                }
                return Err(e);
            },
        }
        write_short_str(out, "languages");
        let ghost head2 = out@;
        match write_text_list(out, &self.languages) {
            Ok(()) => {},
            Err(e) => {
                proof {
                    crate::serializer::lemma_prefix_concat(
                        old(out)@,
                        head2.skip(old(out)@.len() as int),
                    );
                    assert(old(out)@ + head2.skip(old(out)@.len() as int) =~= head2);
                    crate::serializer::lemma_prefix_trans(old(out)@, head2, out@);
                }
                return Err(e);
            },
        }
        proof {
            let b = old(out)@;
            lemma_append_assoc(b, spec_md_head(*self), spec_enc_text(self.database_type@));
            lemma_append_assoc(
                b,
                spec_md_head(*self) + spec_enc_text(self.database_type@),
                spec_enc_text("languages"@),
            );
            lemma_append_assoc(
                b,
                spec_md_head(*self) + spec_enc_text(self.database_type@) + spec_enc_text(
                    "languages"@,
                ),
                spec_control_bytes(11, self.languages@.len() as int),
            );
            lemma_append_assoc(
                b,
                spec_md_head(*self) + spec_enc_text(self.database_type@) + spec_enc_text(
                    "languages"@,
                ) + spec_control_bytes(11, self.languages@.len() as int),
                spec_enc_text_list(self.languages@),
            );
            lemma_append_assoc(
                b + spec_md_head(*self) + spec_enc_text(self.database_type@),
                spec_enc_text("languages"@),
                spec_control_bytes(11, self.languages@.len() as int),
            );
            lemma_append_assoc(
                b + spec_md_head(*self) + spec_enc_text(self.database_type@),
                spec_enc_text("languages"@) + spec_control_bytes(
                    11,
                    self.languages@.len() as int,
                ),
                spec_enc_text_list(self.languages@),
            );
            assert(out@ == b + spec_md_head(*self) + spec_enc_text(self.database_type@)
                + spec_md_langs(*self));
        }
        self.write_tail(out);
        let ghost head3 = out@;
        match write_text_pairs(out, &self.description) {
            Ok(()) => {},
            Err(e) => {
                proof {
                    crate::serializer::lemma_prefix_concat(
                        old(out)@,
                        head3.skip(old(out)@.len() as int),
                    );
                    assert(old(out)@ + head3.skip(old(out)@.len() as int) =~= head3);
                    crate::serializer::lemma_prefix_trans(old(out)@, head3, out@);
                }
                return Err(e);
            },
        }
        proof {
            let b = old(out)@;
            let h = spec_md_head(*self) + spec_enc_text(self.database_type@) + spec_md_langs(
                *self,
            );
            lemma_append_assoc(b, h, spec_md_tail(*self));
            lemma_append_assoc(b, h + spec_md_tail(*self), spec_md_desc(*self));
            lemma_append_assoc(
                b + h + spec_md_tail(*self),
                spec_control_bytes(7, self.description@.len() as int),
                spec_enc_text_entries(self.description@),
            );
            assert(out@ == b + spec_metadata_bytes(*self));
        }
        Ok(())
    }
}

/// A caller-facing metadata record with the same nine fields, the derived
/// ones held as plain integers, shaped by a small builder interface.
#[derive(Clone, Debug)]
pub struct DatabaseMetadata {
    node_count: u32,
    record_size: u16,
    ip_version: u16,
    database_type: String,
    languages: Vec<String>,
    binary_format_major_version: u16,
    binary_format_minor_version: u16,
    build_epoch: u64,
    description: Vec<(String, String)>,
}

impl Default for DatabaseMetadata {
    /// Metadata of an empty version-4 database at the smallest record width.
    fn default() -> (r: DatabaseMetadata)
        ensures
            r.spec_node_count() == 0,
            r.spec_record_size() == 24,
            r.spec_ip_version() == 4,
    {
        DatabaseMetadata {
            node_count: 0,
            record_size: 24,
            ip_version: 4,
            database_type: String::new(),
            languages: Vec::new(),
            binary_format_major_version: 0,
            binary_format_minor_version: 0,
            build_epoch: 0,
            description: Vec::new(),
        }
    }
}

impl DatabaseMetadata {
    /// The node count this record announces.
    pub closed spec fn spec_node_count(&self) -> int {
        self.node_count as int
    }

    /// The record width this record announces, in bits.
    pub closed spec fn spec_record_size(&self) -> int {
        self.record_size as int
    }

    /// The IP version this record announces.
    pub closed spec fn spec_ip_version(&self) -> int {
        self.ip_version as int
    }

    /// The node count this record announces.
    pub fn node_count(&self) -> (r: u32)
        ensures
            r == self.spec_node_count(),
    {
        self.node_count
    }

    /// The IP version this record announces.
    pub fn ip_version(&self) -> (r: u16)
        ensures
            r == self.spec_ip_version(),
    {
        self.ip_version
    }

    /// The same record with its node count replaced.
    pub fn with_node_count(self, node_count: u32) -> (r: DatabaseMetadata)
        ensures
            r.spec_node_count() == node_count,
            r.spec_record_size() == self.spec_record_size(),
            r.spec_ip_version() == self.spec_ip_version(),
    {
        DatabaseMetadata { node_count, ..self }
    }

    /// The same record announcing version-6 addresses.
    pub fn with_ipv6(self) -> (r: DatabaseMetadata)
        ensures
            r.spec_ip_version() == 6,
            r.spec_node_count() == self.spec_node_count(),
            r.spec_record_size() == self.spec_record_size(),
    {
        DatabaseMetadata { ip_version: 6, ..self }
    }
}

} // verus!
