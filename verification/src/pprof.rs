//! pprof protobuf export.
//!
//! Encodes a profile session as the pprof `profile.proto` wire format
//! (hand-rolled varint and length-delimited fields), and wraps it in a GZIP
//! container made of DEFLATE stored blocks, which `go tool pprof` accepts.

use vstd::prelude::*;
use vstd::string::StringSliceAdditionalSpecFns;
use vstd::utf8::encode_utf8;
use vstd::string::StringExecFns;

verus! {

// ─── protobuf wire encoding ───────────────────────────────────────────────────

/// Base-128 varint encoding of `v`: seven bits per byte, least significant
/// group first, high bit set on every byte but the last.
pub open spec fn varint_bytes(v: nat) -> Seq<u8>
    decreases v,
{
    if v < 128 {
        seq![v as u8]
    } else {
        seq![(v % 128 + 128) as u8] + varint_bytes(v / 128)
    }
}

/// Reads one varint back from the front of `bytes` (the inverse of
/// `varint_bytes`).
pub open spec fn varint_value(bytes: Seq<u8>) -> nat
    decreases bytes.len(),
{
    if bytes.len() == 0 {
        0
    } else if bytes[0] < 128 {
        bytes[0] as nat
    } else {
        ((bytes[0] - 128) + 128 * varint_value(bytes.drop_first())) as nat
    }
}

/// Number of bytes the varint at the front of `bytes` occupies.
pub open spec fn varint_len(bytes: Seq<u8>) -> nat
    decreases bytes.len(),
{
    if bytes.len() == 0 {
        0
    } else if bytes[0] < 128 {
        1
    } else {
        1 + varint_len(bytes.drop_first())
    }
}

/// Tag of a field: the field number shifted left by three, or'ed with the
/// wire type.
pub open spec fn tag_value(field: u32, wire_type: nat) -> nat {
    field as nat * 8 + wire_type
}

/// A varint field (wire type 0).
pub open spec fn field_varint_bytes(field: u32, v: nat) -> Seq<u8> {
    varint_bytes(tag_value(field, 0)) + varint_bytes(v)
}

/// A length-delimited field (wire type 2).
pub open spec fn field_bytes_spec(field: u32, data: Seq<u8>) -> Seq<u8> {
    varint_bytes(tag_value(field, 2)) + varint_bytes(data.len()) + data
}

proof fn lemma_varint_byte(v: u64)
    ensures
        (v & 0x7f) == v % 128,
        (v >> 7) == v / 128,
        ((v & 0x7f) as u8) as nat == v % 128,
        v % 128 < 128 ==> (((v & 0x7f) as u8) | 0x80) as nat == v % 128 + 128,
{
    assert((v & 0x7f) == v % 128) by (bit_vector);
    assert((v >> 7) == v / 128) by (bit_vector);
    assert(((v & 0x7f) as u8) as u64 == v % 128) by (bit_vector);
    assert((((v & 0x7f) as u8) | 0x80) as u64 == v % 128 + 128) by (bit_vector);
}

/// Appends the varint encoding of `v` to `buf`.
pub fn varint(buf: &mut Vec<u8>, v: u64)
    ensures
        final(buf)@ == old(buf)@ + varint_bytes(v as nat),
{
    let mut rest: u64 = v;
    let ghost start = buf@;
    let ghost full = v as nat;
    loop
        invariant
            start == old(buf)@,
            full == v as nat,
            start + varint_bytes(full) == buf@ + varint_bytes(rest as nat),
        decreases rest,
    {
        let ghost old_v = rest;
        let ghost before = buf@;
        proof {
            lemma_varint_byte(rest);
        }
        let b: u8 = (rest & 0x7f) as u8;
        rest = rest >> 7;
        if rest == 0 {
            buf.push(b);
            assert(varint_bytes(old_v as nat) =~= seq![b]);
            assert(buf@ =~= before + varint_bytes(old_v as nat));
            return ;
        }
        buf.push(b | 0x80);
        assert(varint_bytes(old_v as nat) =~= seq![(b | 0x80)] + varint_bytes(rest as nat));
        assert(buf@ + varint_bytes(rest as nat) =~= before + varint_bytes(old_v as nat));
    }
}


/// Decoding the varint encoding of `v`, followed by anything, gives `v` back
/// and consumes exactly the encoded bytes.
pub proof fn lemma_varint_roundtrip(v: nat, rest: Seq<u8>)
    ensures
        varint_value(varint_bytes(v) + rest) == v,
        varint_len(varint_bytes(v) + rest) == varint_bytes(v).len(),
    decreases v,
{
    let bytes = varint_bytes(v) + rest;
    if v < 128 {
        assert(bytes[0] == v as u8);
    } else {
        lemma_varint_roundtrip(v / 128, rest);
        assert(bytes.drop_first() =~= varint_bytes(v / 128) + rest);
        assert(bytes[0] == (v % 128 + 128) as u8);
    }
}

proof fn lemma_tag(field: u32, wire: u64)
    requires
        wire < 8,
    ensures
        (((field as u64) << 3) | wire) == tag_value(field, wire as nat),
        ((field as u64) << 3) == tag_value(field, 0),
{
    assert((((field as u64) << 3) | wire) == (field as u64) * 8 + wire) by (bit_vector)
        requires wire < 8;
    assert(((field as u64) << 3) == (field as u64) * 8) by (bit_vector);
}

/// Appends a varint field to `buf`.
pub fn field_varint(buf: &mut Vec<u8>, field: u32, v: u64)
    ensures
        final(buf)@ == old(buf)@ + field_varint_bytes(field, v as nat),
{
    proof {
        lemma_tag(field, 0);
    }
    varint(buf, (field as u64) << 3);
    varint(buf, v);
    assert(buf@ =~= old(buf)@ + field_varint_bytes(field, v as nat));
}

/// Appends `data` to `buf` byte by byte.
fn push_all(buf: &mut Vec<u8>, data: &[u8])
    ensures
        final(buf)@ == old(buf)@ + data@,
{
    let mut i: usize = 0;
    while i < data.len()
        invariant
            i <= data@.len(),
            buf@ == old(buf)@ + data@.take(i as int),
        decreases data@.len() - i,
    {
        buf.push(data[i]);
        i = i + 1;
        assert(data@.take(i as int) =~= data@.take(i - 1) + seq![data@[i - 1]]);
    }
    assert(data@.take(i as int) =~= data@);
}

/// Appends a length-delimited field holding `data` to `buf`.
pub fn field_bytes(buf: &mut Vec<u8>, field: u32, data: &[u8])
    ensures
        final(buf)@ == old(buf)@ + field_bytes_spec(field, data@),
{
    proof {
        lemma_tag(field, 2);
    }
    varint(buf, ((field as u64) << 3) | 2);
    varint(buf, data.len() as u64);
    push_all(buf, data);
    assert(buf@ =~= old(buf)@ + field_bytes_spec(field, data@));
}

/// Appends a string field (its UTF-8 bytes) to `buf`.
pub fn field_str(buf: &mut Vec<u8>, field: u32, s: &str)
    ensures
        final(buf)@ == old(buf)@ + field_bytes_spec(field, encode_utf8(s@)),
{
    field_bytes(buf, field, s.as_bytes());
}

/// Appends an embedded message to `buf`.
pub fn submsg(buf: &mut Vec<u8>, field: u32, msg: &[u8])
    ensures
        final(buf)@ == old(buf)@ + field_bytes_spec(field, msg@),
{
    field_bytes(buf, field, msg);
}


// ─── string table ─────────────────────────────────────────────────────────────

/// The profile's string table: each string at most once, in the order it was
/// first interned. Entry 0 is the empty string, as pprof requires.
pub struct StringTable {
    strings: Vec<String>,
}

/// Result of interning `s` into table `t`: the new table and the index of `s`.
pub open spec fn intern_spec(t: Seq<Seq<char>>, s: Seq<char>) -> (Seq<Seq<char>>, int) {
    if t.contains(s) {
        (t, t.index_of(s))
    } else {
        (t.push(s), t.len() as int)
    }
}

impl View for StringTable {
    type V = Seq<Seq<char>>;

    closed spec fn view(&self) -> Seq<Seq<char>> {
        self.strings@.map_values(|s: String| s@)
    }
}

impl StringTable {
    /// A table is well formed when no string occurs twice.
    pub open spec fn wf(&self) -> bool {
        self@.no_duplicates()
    }

    /// A table holding only the empty string, at index 0.
    pub fn new() -> (st: Self)
        ensures
            st.wf(),
            st@ == seq![Seq::<char>::empty()],
    {
        let mut st = StringTable { strings: Vec::new() };
        let e = String::new();
        st.intern(&e);
        assert(st@ =~= seq![Seq::<char>::empty()]);
        st
    }

    /// Number of strings in the table.
    pub fn len(&self) -> (n: usize)
        ensures
            n == self@.len(),
    {
        self.strings.len()
    }

    /// The string at index `i`.
    pub fn get(&self, i: usize) -> (s: &String)
        requires
            i < self@.len(),
        ensures
            s@ == self@[i as int],
    {
        &self.strings[i]
    }

    /// A table with no strings at all.
    pub fn empty() -> (st: Self)
        ensures
            st.wf(),
            st@ == Seq::<Seq<char>>::empty(),
    {
        let st = StringTable { strings: Vec::new() };
        assert(st@ =~= Seq::<Seq<char>>::empty());
        st
    }

    /// Index of `s` in the table, if it is there.
    pub fn find(&self, s: &String) -> (r: Option<usize>)
        requires
            self.wf(),
        ensures
            r is None ==> !self@.contains(s@),
            r matches Some(j) ==> self@.contains(s@) && j as int == self@.index_of(s@)
                && j < self@.len(),
    {
        let n = self.strings.len();
        let mut j: usize = 0;
        while j < n
            invariant
                n == self.strings@.len(),
                j <= n,
                self@.no_duplicates(),
                forall|k: int| 0 <= k < j ==> self@[k] != s@,
            decreases n - j,
        {
            if self.strings[j] == *s {
                assert(self@[j as int] == s@);
                assert(self@.contains(s@));
                assert(self@.index_of(s@) == j as int) by {
                    let c = self@.index_of(s@);
                    assert(self@[c] == s@);
                }
                return Some(j);
            }
            j = j + 1;
        }
        None
    }

    /// Index of `s` in the table, adding it at the end if it is not there yet.
    pub fn intern(&mut self, s: &String) -> (i: usize)
        requires
            old(self).wf(),
        ensures
            final(self).wf(),
            (final(self)@, i as int) == intern_spec(old(self)@, s@),
    {
        match self.find(s) {
            Some(j) => j,
            None => {
                let n = self.strings.len();
                let ghost before = self@;
                self.strings.push(s.clone());
                assert(self@ =~= before.push(s@));
                n
            },
        }
    }
}

// ─── profile encoder ─────────────────────────────────────────────────────────

/// What the encoder reads of one profiled function.
pub struct PprofFunction {
    pub name: String,
    pub module: String,
    pub file: String,
    pub line: u32,
    /// Inclusive time over all calls (ns): the sample's CPU value.
    pub total_ns: u64,
    /// Heap bytes allocated over all calls: the sample's alloc value.
    pub alloc_bytes: u64,
}

/// What the encoder reads of one profile session.
pub struct PprofSession {
    pub functions: Vec<PprofFunction>,
    pub session_duration_ns: u64,
    pub started_at_unix_secs: u64,
}

/// Fully qualified name of a function: `module::name`.
pub open spec fn key_of(f: PprofFunction) -> Seq<char> {
    f.module@ + seq![':', ':'] + f.name@
}

/// The distinct keys of `fs`, in order of first occurrence.
pub open spec fn distinct_keys(fs: Seq<PprofFunction>) -> Seq<Seq<char>>
    decreases fs.len(),
{
    if fs.len() == 0 {
        Seq::empty()
    } else {
        let k = distinct_keys(fs.drop_last());
        let key = key_of(fs.last());
        if k.contains(key) {
            k
        } else {
            k.push(key)
        }
    }
}

/// pprof function id of `key`: odd ids, in order of first occurrence.
pub open spec fn function_id(keys: Seq<Seq<char>>, key: Seq<char>) -> nat {
    (2 * keys.index_of(key) + 1) as nat
}

/// pprof location id of `key`: the even id right after its function id.
pub open spec fn location_id(keys: Seq<Seq<char>>, key: Seq<char>) -> nat {
    (2 * keys.index_of(key) + 2) as nat
}

/// The strings interned before any function: "", "cpu", "nanoseconds",
/// "alloc_space", "bytes".
pub open spec fn initial_strings() -> Seq<Seq<char>> {
    seq![
        Seq::<char>::empty(),
        seq!['c', 'p', 'u'],
        seq!['n', 'a', 'n', 'o', 's', 'e', 'c', 'o', 'n', 'd', 's'],
        seq!['a', 'l', 'l', 'o', 'c', '_', 's', 'p', 'a', 'c', 'e'],
        seq!['b', 'y', 't', 'e', 's'],
    ]
}

/// The two sample types: cpu/nanoseconds and alloc_space/bytes.
pub open spec fn sample_types_bytes() -> Seq<u8> {
    field_bytes_spec(1, field_varint_bytes(1, 1) + field_varint_bytes(2, 2)) + field_bytes_spec(
        1,
        field_varint_bytes(1, 3) + field_varint_bytes(2, 4),
    )
}

/// One sample: its location id (packed) and the values [cpu ns, alloc bytes].
pub open spec fn sample_msg(f: PprofFunction, keys: Seq<Seq<char>>) -> Seq<u8> {
    field_bytes_spec(1, varint_bytes(location_id(keys, key_of(f)))) + field_varint_bytes(
        2,
        f.total_ns as nat,
    ) + field_varint_bytes(2, f.alloc_bytes as nat)
}

/// One sample message (field 2) per function, in order.
pub open spec fn samples_bytes(fs: Seq<PprofFunction>, keys: Seq<Seq<char>>) -> Seq<u8>
    decreases fs.len(),
{
    if fs.len() == 0 {
        Seq::empty()
    } else {
        samples_bytes(fs.drop_last(), keys) + field_bytes_spec(2, sample_msg(fs.last(), keys))
    }
}

/// One location: its id and one line entry (function id, line).
pub open spec fn location_msg(f: PprofFunction, keys: Seq<Seq<char>>) -> Seq<u8> {
    field_varint_bytes(1, location_id(keys, key_of(f))) + field_bytes_spec(
        3,
        field_varint_bytes(1, function_id(keys, key_of(f))) + field_varint_bytes(2, f.line as nat),
    )
}

/// One location message (field 4) per function, in order.
pub open spec fn locations_bytes(fs: Seq<PprofFunction>, keys: Seq<Seq<char>>) -> Seq<u8>
    decreases fs.len(),
{
    if fs.len() == 0 {
        Seq::empty()
    } else {
        locations_bytes(fs.drop_last(), keys) + field_bytes_spec(4, location_msg(fs.last(), keys))
    }
}

/// One function message: id, name, system name (the key), file, start line.
pub open spec fn function_msg(
    f: PprofFunction,
    keys: Seq<Seq<char>>,
    name_i: int,
    sys_i: int,
    file_i: int,
) -> Seq<u8> {
    field_varint_bytes(1, function_id(keys, key_of(f))) + field_varint_bytes(2, name_i as nat)
        + field_varint_bytes(3, sys_i as nat) + field_varint_bytes(4, file_i as nat)
        + field_varint_bytes(5, f.line as nat)
}

/// The function messages (field 5), one per function, together with the
/// string table after interning each function's name, file and key in turn.
pub open spec fn functions_part(
    fs: Seq<PprofFunction>,
    keys: Seq<Seq<char>>,
    t0: Seq<Seq<char>>,
) -> (Seq<u8>, Seq<Seq<char>>)
    decreases fs.len(),
{
    if fs.len() == 0 {
        (Seq::empty(), t0)
    } else {
        let (b, t) = functions_part(fs.drop_last(), keys, t0);
        let f = fs.last();
        let (t1, ni) = intern_spec(t, f.name@);
        let (t2, fi) = intern_spec(t1, f.file@);
        let (t3, si) = intern_spec(t2, key_of(f));
        (b + field_bytes_spec(5, function_msg(f, keys, ni, si, fi)), t3)
    }
}

/// The string table (field 6), one entry per string, in table order.
pub open spec fn string_table_bytes(t: Seq<Seq<char>>) -> Seq<u8>
    decreases t.len(),
{
    if t.len() == 0 {
        Seq::empty()
    } else {
        string_table_bytes(t.drop_last()) + field_bytes_spec(6, encode_utf8(t.last()))
    }
}

/// Session start in nanoseconds, saturating at `u64::MAX`.
pub open spec fn start_nanos(secs: u64) -> nat {
    if secs * 1_000_000_000 > u64::MAX {
        u64::MAX as nat
    } else {
        (secs * 1_000_000_000) as nat
    }
}

/// The whole uncompressed pprof profile of `s`.
pub open spec fn encoded_profile(fs: Seq<PprofFunction>, duration_ns: u64, start_secs: u64) -> Seq<
    u8,
> {
    let keys = distinct_keys(fs);
    let (fbytes, table) = functions_part(fs, keys, initial_strings());
    sample_types_bytes() + samples_bytes(fs, keys) + locations_bytes(fs, keys) + fbytes
        + string_table_bytes(table) + field_varint_bytes(10, duration_ns as nat)
        + field_varint_bytes(9, start_nanos(start_secs))
}


// ─── reading protobuf fields back ───────────────────────────────────────────

/// Reads one varint field from the front of `bytes`: its field number, its
/// wire type, its value, and the bytes after it.
pub open spec fn read_varint_field(bytes: Seq<u8>) -> (nat, nat, nat, Seq<u8>) {
    let tag = varint_value(bytes);
    let rest = bytes.skip(varint_len(bytes) as int);
    (tag / 8, tag % 8, varint_value(rest), rest.skip(varint_len(rest) as int))
}

/// Reads one length-delimited field from the front of `bytes`: its field
/// number, its wire type, its payload, and the bytes after it.
pub open spec fn read_bytes_field(bytes: Seq<u8>) -> (nat, nat, Seq<u8>, Seq<u8>) {
    let tag = varint_value(bytes);
    let rest = bytes.skip(varint_len(bytes) as int);
    let n = varint_value(rest);
    let body = rest.skip(varint_len(rest) as int);
    (tag / 8, tag % 8, body.take(n as int), body.skip(n as int))
}

/// A varint field reads back as its field number, wire type 0 and its
/// value, leaving what follows it.
pub proof fn lemma_read_varint_field(field: u32, v: nat, rest: Seq<u8>)
    ensures
        read_varint_field(field_varint_bytes(field, v) + rest) == (field as nat, 0nat, v, rest),
{
    let tag = tag_value(field, 0);
    let tail = varint_bytes(v) + rest;
    let bytes = field_varint_bytes(field, v) + rest;
    assert(bytes =~= varint_bytes(tag) + tail);
    lemma_varint_roundtrip(tag, tail);
    assert(bytes.skip(varint_bytes(tag).len() as int) =~= tail);
    lemma_varint_roundtrip(v, rest);
    assert(tail.skip(varint_bytes(v).len() as int) =~= rest);
    assert(tag / 8 == field as nat && tag % 8 == 0) by {
        assert(tag == field as nat * 8);
    }
}

/// A length-delimited field reads back as its field number, wire type 2
/// and its payload, leaving what follows it.
pub proof fn lemma_read_bytes_field(field: u32, data: Seq<u8>, rest: Seq<u8>)
    ensures
        read_bytes_field(field_bytes_spec(field, data) + rest) == (field as nat, 2nat, data, rest),
{
    let tag = tag_value(field, 2);
    let tail = varint_bytes(data.len()) + data + rest;
    let bytes = field_bytes_spec(field, data) + rest;
    assert(bytes =~= varint_bytes(tag) + tail);
    lemma_varint_roundtrip(tag, tail);
    assert(bytes.skip(varint_bytes(tag).len() as int) =~= tail);
    lemma_varint_roundtrip(data.len(), data + rest);
    assert(tail =~= varint_bytes(data.len()) + (data + rest));
    assert(tail.skip(varint_bytes(data.len()).len() as int) =~= data + rest);
    assert((data + rest).take(data.len() as int) =~= data);
    assert((data + rest).skip(data.len() as int) =~= rest);
    assert(tag / 8 == field as nat && tag % 8 == 2) by {
        assert(tag == field as nat * 8 + 2);
    }
}

/// Interning only ever adds strings at the end.
proof fn lemma_functions_part_keeps_prefix(
    fs: Seq<PprofFunction>,
    keys: Seq<Seq<char>>,
    t0: Seq<Seq<char>>,
)
    ensures
        functions_part(fs, keys, t0).1.len() >= t0.len(),
        functions_part(fs, keys, t0).1.take(t0.len() as int) == t0,
    decreases fs.len(),
{
    if fs.len() > 0 {
        lemma_functions_part_keeps_prefix(fs.drop_last(), keys, t0);
        let (b, t) = functions_part(fs.drop_last(), keys, t0);
        let f = fs.last();
        let (t1, ni) = intern_spec(t, f.name@);
        let (t2, fi) = intern_spec(t1, f.file@);
        let (t3, si) = intern_spec(t2, key_of(f));
        assert(t1.take(t.len() as int) =~= t);
        assert(t2.take(t1.len() as int) =~= t1);
        assert(t3.take(t2.len() as int) =~= t2);
        assert(t3.take(t0.len() as int) =~= t0) by {
            assert forall|x: int| 0 <= x < t0.len() implies t3[x] == t0[x] by {
                assert(t3.take(t2.len() as int)[x] == t3[x]);
                assert(t2.take(t1.len() as int)[x] == t2[x]);
                assert(t1.take(t.len() as int)[x] == t1[x]);
                assert(t.take(t0.len() as int)[x] == t[x]);
            }
        }
    }
}

/// Each sample's values come in the order of the profile's sample types.
/// The first sample type names the strings "cpu" and "nanoseconds" of the
/// profile's string table and the second "alloc_space" and "bytes"; a
/// sample reads back as its location, then a first value that is the
/// function's CPU time in nanoseconds and a second that is the bytes it
/// allocated, and nothing more.
pub proof fn lemma_sample_values_match_types(f: PprofFunction, fs: Seq<PprofFunction>)
    ensures
        ({
            let keys = distinct_keys(fs);
            let table = functions_part(fs, keys, initial_strings()).1;
            let (n1, w1, st0, r1) = read_bytes_field(sample_types_bytes());
            let (n2, w2, st1, r2) = read_bytes_field(r1);
            let (a0, aw0, type0, x0) = read_varint_field(st0);
            let (b0, bw0, unit0, y0) = read_varint_field(x0);
            let (a1, aw1, type1, x1) = read_varint_field(st1);
            let (b1, bw1, unit1, y1) = read_varint_field(x1);
            &&& n1 == 1 && w1 == 2 && n2 == 1 && w2 == 2 && r2.len() == 0
            &&& a0 == 1 && aw0 == 0 && b0 == 2 && bw0 == 0 && y0.len() == 0
            &&& a1 == 1 && aw1 == 0 && b1 == 2 && bw1 == 0 && y1.len() == 0
            &&& type0 < table.len() && unit0 < table.len() && type1 < table.len() && unit1 < table.len()
            &&& table[type0 as int] == seq!['c', 'p', 'u']
            &&& table[unit0 as int] == seq!['n', 'a', 'n', 'o', 's', 'e', 'c', 'o', 'n', 'd', 's']
            &&& table[type1 as int] == seq!['a', 'l', 'l', 'o', 'c', '_', 's', 'p', 'a', 'c', 'e']
            &&& table[unit1 as int] == seq!['b', 'y', 't', 'e', 's']
        }),
        ({
            let keys = distinct_keys(fs);
            let (s1, sw1, loc, q1) = read_bytes_field(sample_msg(f, keys));
            let (s2, sw2, value0, q2) = read_varint_field(q1);
            let (s3, sw3, value1, q3) = read_varint_field(q2);
            &&& s1 == 1 && sw1 == 2
            &&& s2 == 2 && sw2 == 0 && value0 == f.total_ns
            &&& s3 == 2 && sw3 == 0 && value1 == f.alloc_bytes
            &&& q3.len() == 0
        }),
{
    let keys = distinct_keys(fs);
    let table = functions_part(fs, keys, initial_strings()).1;
    lemma_functions_part_keeps_prefix(fs, keys, initial_strings());
    let init = initial_strings();
    assert forall|x: int| 0 <= x < 5 implies table[x] == init[x] by {
        assert(table.take(5)[x] == table[x]);
    }
    // the sample types
    let e0 = field_varint_bytes(1, 1) + field_varint_bytes(2, 2);
    let e1 = field_varint_bytes(1, 3) + field_varint_bytes(2, 4);
    let empty = Seq::<u8>::empty();
    assert(sample_types_bytes() =~= field_bytes_spec(1, e0) + field_bytes_spec(1, e1));
    lemma_read_bytes_field(1, e0, field_bytes_spec(1, e1));
    assert(field_bytes_spec(1, e1) =~= field_bytes_spec(1, e1) + empty);
    lemma_read_bytes_field(1, e1, empty);
    assert(field_varint_bytes(2, 2) =~= field_varint_bytes(2, 2) + empty);
    assert(field_varint_bytes(2, 4) =~= field_varint_bytes(2, 4) + empty);
    lemma_read_varint_field(1, 1, field_varint_bytes(2, 2));
    lemma_read_varint_field(2, 2, empty);
    lemma_read_varint_field(1, 3, field_varint_bytes(2, 4));
    lemma_read_varint_field(2, 4, empty);
    // the sample
    let v1 = field_varint_bytes(2, f.alloc_bytes as nat);
    let v0 = field_varint_bytes(2, f.total_ns as nat);
    let locb = varint_bytes(location_id(keys, key_of(f)));
    assert(sample_msg(f, keys) =~= field_bytes_spec(1, locb) + (v0 + v1));
    lemma_read_bytes_field(1, locb, v0 + v1);
    lemma_read_varint_field(2, f.total_ns as nat, v1);
    assert(v1 =~= v1 + empty);
    lemma_read_varint_field(2, f.alloc_bytes as nat, empty);
}

proof fn lemma_distinct_keys(fs: Seq<PprofFunction>)
    ensures
        distinct_keys(fs).no_duplicates(),
        distinct_keys(fs).len() <= fs.len(),
        forall|i: int| 0 <= i < fs.len() ==> #[trigger] distinct_keys(fs).contains(key_of(fs[i])),
    decreases fs.len(),
{
    if fs.len() > 0 {
        let pre = fs.drop_last();
        lemma_distinct_keys(pre);
        let k = distinct_keys(pre);
        assert forall|i: int| 0 <= i < fs.len() implies #[trigger] distinct_keys(fs).contains(
            key_of(fs[i]),
        ) by {
            if i < fs.len() - 1 {
                assert(pre[i] == fs[i]);
                assert(k.contains(key_of(pre[i])));
                let w = k.index_of(key_of(pre[i]));
                if !k.contains(key_of(fs.last())) {
                    assert(k.push(key_of(fs.last()))[w] == key_of(fs[i]));
                }
            } else {
                if !k.contains(key_of(fs.last())) {
                    assert(k.push(key_of(fs.last()))[k.len() as int] == key_of(fs[i]));
                }
            }
        }
    }
}

/// `module::name` of `f`.
fn key_string(f: &PprofFunction) -> (k: String)
    ensures
        k@ == key_of(*f),
{
    let mut k = f.module.clone();
    k.append("::");
    k.append(f.name.as_str());
    proof {
        reveal_strlit("::");
    }
    k
}

/// Session start in nanoseconds, saturating.
fn start_nanos_of(secs: u64) -> (r: u64)
    ensures
        r == start_nanos(secs),
{
    if secs > u64::MAX / 1_000_000_000 {
        assert(secs * 1_000_000_000 > u64::MAX) by (nonlinear_arith)
            requires
                secs > u64::MAX / 1_000_000_000,
        ;
        u64::MAX
    } else {
        assert(secs * 1_000_000_000 <= u64::MAX) by (nonlinear_arith)
            requires
                secs <= u64::MAX / 1_000_000_000,
        ;
        secs * 1_000_000_000
    }
}

/// Encodes `session` as raw (uncompressed) pprof protobuf bytes.
pub fn encode_profile(session: &PprofSession) -> (buf: Vec<u8>)
    requires
        session.functions@.len() <= isize::MAX,
    ensures
        buf@ == encoded_profile(
            session.functions@,
            session.session_duration_ns,
            session.started_at_unix_secs,
        ),
{
    let fs = &session.functions;
    let n = fs.len();
    let ghost fss = fs@;
    let mut st = StringTable::new();
    let mut buf: Vec<u8> = Vec::new();

    // SampleType[0]: cpu / nanoseconds, SampleType[1]: alloc_space / bytes
    let cpu = String::from_str("cpu");
    let nanos = String::from_str("nanoseconds");
    let alloc = String::from_str("alloc_space");
    let bytes = String::from_str("bytes");
    proof {
        reveal_strlit("cpu");
        reveal_strlit("nanoseconds");
        reveal_strlit("alloc_space");
        reveal_strlit("bytes");
    }
    let ghost e = Seq::<char>::empty();
    let ghost s1 = seq!['c', 'p', 'u'];
    let ghost s2 = seq!['n', 'a', 'n', 'o', 's', 'e', 'c', 'o', 'n', 'd', 's'];
    let ghost s3 = seq!['a', 'l', 'l', 'o', 'c', '_', 's', 'p', 'a', 'c', 'e'];
    let ghost s4 = seq!['b', 'y', 't', 'e', 's'];
    assert(cpu@ =~= s1);
    assert(nanos@ =~= s2);
    assert(alloc@ =~= s3);
    assert(bytes@ =~= s4);
    assert(!seq![e].contains(s1)) by {
        assert(seq![e][0].len() != s1.len());
    }
    let t = st.intern(&cpu);
    assert(st@ =~= seq![e, s1]);
    assert(!seq![e, s1].contains(s2)) by {
        assert(seq![e, s1][0].len() != s2.len());
        assert(seq![e, s1][1].len() != s2.len());
    }
    let u = st.intern(&nanos);
    assert(st@ =~= seq![e, s1, s2]);
    let mut m: Vec<u8> = Vec::new();
    field_varint(&mut m, 1, t as u64);
    field_varint(&mut m, 2, u as u64);
    submsg(&mut buf, 1, m.as_slice());
    assert(!seq![e, s1, s2].contains(s3)) by {
        assert(seq![e, s1, s2][0].len() != s3.len());
        assert(seq![e, s1, s2][1].len() != s3.len());
        assert(seq![e, s1, s2][2][0] != s3[0]);
    }
    let t = st.intern(&alloc);
    assert(st@ =~= seq![e, s1, s2, s3]);
    assert(!seq![e, s1, s2, s3].contains(s4)) by {
        assert(seq![e, s1, s2, s3][0].len() != s4.len());
        assert(seq![e, s1, s2, s3][1].len() != s4.len());
        assert(seq![e, s1, s2, s3][2].len() != s4.len());
        assert(seq![e, s1, s2, s3][3].len() != s4.len());
    }
    let u = st.intern(&bytes);
    let mut m: Vec<u8> = Vec::new();
    field_varint(&mut m, 1, t as u64);
    field_varint(&mut m, 2, u as u64);
    submsg(&mut buf, 1, m.as_slice());
    assert(st@ =~= initial_strings());
    assert(buf@ =~= sample_types_bytes());

    // distinct keys, in order of first occurrence
    let mut keys = StringTable::empty();
    let mut i: usize = 0;
    while i < n
        invariant
            n == fss.len(),
            fss == fs@,
            i <= n,
            keys.wf(),
            keys@ == distinct_keys(fss.take(i as int)),
        decreases n - i,
    {
        let k = key_string(&fs[i]);
        let _ = keys.intern(&k);
        i = i + 1;
        assert(fss.take(i as int).drop_last() =~= fss.take(i - 1));
    }
    assert(fss.take(n as int) =~= fss);
    let ghost ks = keys@;
    proof {
        lemma_distinct_keys(fss);
    }

    // one sample per function (field 2)
    let ghost pre = buf@;
    let mut i: usize = 0;
    while i < n
        invariant
            n == fss.len(),
            fss == fs@,
            n <= isize::MAX,
            i <= n,
            keys.wf(),
            keys@ == ks,
            ks == distinct_keys(fss),
            ks.len() <= n,
            forall|j: int| 0 <= j < fss.len() ==> #[trigger] ks.contains(key_of(fss[j])),
            buf@ == pre + samples_bytes(fss.take(i as int), ks),
        decreases n - i,
    {
        let f = &fs[i];
        let k = key_string(f);
        assert(ks.contains(key_of(fss[i as int])));
        let j = match keys.find(&k) {
            Some(j) => j,
            None => {
                assert(false);
                0
            },
        };
        let lid: u64 = (2 * j + 2) as u64;
        let mut lp: Vec<u8> = Vec::new();
        varint(&mut lp, lid);
        let mut sm: Vec<u8> = Vec::new();
        field_bytes(&mut sm, 1, lp.as_slice());
        field_varint(&mut sm, 2, f.total_ns);
        field_varint(&mut sm, 2, f.alloc_bytes);
        assert(sm@ =~= sample_msg(*f, ks));
        submsg(&mut buf, 2, sm.as_slice());
        i = i + 1;
        assert(fss.take(i as int).drop_last() =~= fss.take(i - 1));
        assert(buf@ =~= pre + samples_bytes(fss.take(i as int), ks));
    }
    assert(fss.take(n as int) =~= fss);

    // one location per function (field 4)
    let ghost pre = buf@;
    let mut i: usize = 0;
    while i < n
        invariant
            n == fss.len(),
            fss == fs@,
            n <= isize::MAX,
            i <= n,
            keys.wf(),
            keys@ == ks,
            ks.len() <= n,
            forall|j: int| 0 <= j < fss.len() ==> #[trigger] ks.contains(key_of(fss[j])),
            buf@ == pre + locations_bytes(fss.take(i as int), ks),
        decreases n - i,
    {
        let f = &fs[i];
        let k = key_string(f);
        assert(ks.contains(key_of(fss[i as int])));
        let j = match keys.find(&k) {
            Some(j) => j,
            None => {
                assert(false);
                0
            },
        };
        let lid: u64 = (2 * j + 2) as u64;
        let fid: u64 = (2 * j + 1) as u64;
        let mut loc: Vec<u8> = Vec::new();
        field_varint(&mut loc, 1, lid);
        let mut line_msg: Vec<u8> = Vec::new();
        field_varint(&mut line_msg, 1, fid);
        field_varint(&mut line_msg, 2, f.line as u64);
        submsg(&mut loc, 3, line_msg.as_slice());
        assert(loc@ =~= location_msg(*f, ks));
        submsg(&mut buf, 4, loc.as_slice());
        i = i + 1;
        assert(fss.take(i as int).drop_last() =~= fss.take(i - 1));
        assert(buf@ =~= pre + locations_bytes(fss.take(i as int), ks));
    }
    assert(fss.take(n as int) =~= fss);

    // one function per function record (field 5), interning its strings
    let ghost pre = buf@;
    let mut i: usize = 0;
    while i < n
        invariant
            n == fss.len(),
            fss == fs@,
            n <= isize::MAX,
            i <= n,
            keys.wf(),
            keys@ == ks,
            ks.len() <= n,
            forall|j: int| 0 <= j < fss.len() ==> #[trigger] ks.contains(key_of(fss[j])),
            st.wf(),
            buf@ == pre + functions_part(fss.take(i as int), ks, initial_strings()).0,
            st@ == functions_part(fss.take(i as int), ks, initial_strings()).1,
        decreases n - i,
    {
        let f = &fs[i];
        let k = key_string(f);
        assert(ks.contains(key_of(fss[i as int])));
        let j = match keys.find(&k) {
            Some(j) => j,
            None => {
                assert(false);
                0
            },
        };
        let fid: u64 = (2 * j + 1) as u64;
        let name_i = st.intern(&f.name);
        let file_i = st.intern(&f.file);
        let sys_i = st.intern(&k);
        let mut func: Vec<u8> = Vec::new();
        field_varint(&mut func, 1, fid);
        field_varint(&mut func, 2, name_i as u64);
        field_varint(&mut func, 3, sys_i as u64);
        field_varint(&mut func, 4, file_i as u64);
        field_varint(&mut func, 5, f.line as u64);
        assert(func@ =~= function_msg(*f, ks, name_i as int, sys_i as int, file_i as int));
        submsg(&mut buf, 5, func.as_slice());
        i = i + 1;
        assert(fss.take(i as int).drop_last() =~= fss.take(i - 1));
        assert(buf@ =~= pre + functions_part(fss.take(i as int), ks, initial_strings()).0);
    }
    assert(fss.take(n as int) =~= fss);

    // string table (field 6), in table order
    let ghost pre = buf@;
    let ghost table = st@;
    let tn = st.len();
    let mut i: usize = 0;
    while i < tn
        invariant
            tn == table.len(),
            st@ == table,
            i <= tn,
            buf@ == pre + string_table_bytes(table.take(i as int)),
        decreases tn - i,
    {
        field_str(&mut buf, 6, st.get(i).as_str());
        i = i + 1;
        assert(table.take(i as int).drop_last() =~= table.take(i - 1));
        assert(buf@ =~= pre + string_table_bytes(table.take(i as int)));
    }
    assert(table.take(tn as int) =~= table);

    // duration_nanos (field 10), time_nanos (field 9)
    field_varint(&mut buf, 10, session.session_duration_ns);
    field_varint(&mut buf, 9, start_nanos_of(session.started_at_unix_secs));
    assert(buf@ =~= encoded_profile(
        fss,
        session.session_duration_ns,
        session.started_at_unix_secs,
    ));
    buf
}


// ─── minimal gzip / DEFLATE stored-block encoder ─────────────────────────────
// RFC 1952 (GZIP) around RFC 1951 stored blocks (no compression).

/// One round of the reflected CRC-32 polynomial 0xEDB88320.
pub open spec fn crc_step(c: u32) -> u32 {
    if c & 1 != 0 {
        0xEDB88320u32 ^ (c >> 1)
    } else {
        c >> 1
    }
}

/// `k` rounds of `crc_step` starting from `c`.
pub open spec fn crc_rounds(c: u32, k: nat) -> u32
    decreases k,
{
    if k == 0 {
        c
    } else {
        crc_step(crc_rounds(c, (k - 1) as nat))
    }
}

/// Entry `i` of the CRC-32 lookup table.
pub open spec fn crc_table_entry(i: u32) -> u32 {
    crc_rounds(i, 8)
}

/// Folds one byte into a running (inverted) CRC register.
pub open spec fn crc_update(crc: u32, b: u8) -> u32 {
    crc_table_entry((crc ^ (b as u32)) & 0xff) ^ (crc >> 8)
}

/// The CRC register after all of `data`, starting from all ones.
pub open spec fn crc_register(data: Seq<u8>) -> u32
    decreases data.len(),
{
    if data.len() == 0 {
        0xFFFFFFFFu32
    } else {
        crc_update(crc_register(data.drop_last()), data.last())
    }
}

/// CRC-32 (IEEE) of `data`.
pub open spec fn crc32_spec(data: Seq<u8>) -> u32 {
    !crc_register(data)
}

/// The 256-entry CRC-32 lookup table.
pub fn crc32_table() -> (t: Vec<u32>)
    ensures
        t@.len() == 256,
        forall|i: int| 0 <= i < 256 ==> #[trigger] t@[i] == crc_table_entry(i as u32),
{
    let mut t: Vec<u32> = Vec::new();
    let mut i: u32 = 0;
    while i < 256
        invariant
            i <= 256,
            t@.len() == i,
            forall|k: int| 0 <= k < i ==> #[trigger] t@[k] == crc_table_entry(k as u32),
        decreases 256 - i,
    {
        let mut c: u32 = i;
        let mut j: u32 = 0;
        while j < 8
            invariant
                j <= 8,
                c == crc_rounds(i, j as nat),
            decreases 8 - j,
        {
            c = if c & 1 != 0 {
                0xEDB88320u32 ^ (c >> 1)
            } else {
                c >> 1
            };
            j = j + 1;
        }
        t.push(c);
        i = i + 1;
    }
    t
}

/// CRC-32 (IEEE) of `data`.
pub fn crc32(data: &[u8]) -> (r: u32)
    ensures
        r == crc32_spec(data@),
{
    let table = crc32_table();
    let mut crc: u32 = 0xFFFFFFFF;
    let mut i: usize = 0;
    while i < data.len()
        invariant
            i <= data@.len(),
            table@.len() == 256,
            forall|k: int| 0 <= k < 256 ==> #[trigger] table@[k] == crc_table_entry(k as u32),
            crc == crc_register(data@.take(i as int)),
        decreases data@.len() - i,
    {
        let b = data[i];
        let idx: u32 = (crc ^ b as u32) & 0xff;
        assert(((crc ^ b as u32) & 0xff) < 256) by (bit_vector);
        crc = table[idx as usize] ^ (crc >> 8);
        i = i + 1;
        assert(data@.take(i as int).drop_last() =~= data@.take(i - 1));
    }
    assert(data@.take(i as int) =~= data@);
    !crc
}

/// Little-endian bytes of a 16-bit value.
pub open spec fn le16(x: u16) -> Seq<u8> {
    seq![(x & 0xff) as u8, (x >> 8) as u8]
}

/// Little-endian bytes of a 32-bit value.
pub open spec fn le32(x: u32) -> Seq<u8> {
    seq![(x & 0xff) as u8, ((x >> 8) & 0xff) as u8, ((x >> 16) & 0xff) as u8, (x >> 24) as u8]
}

/// Largest payload of one stored block.
pub open spec fn max_stored() -> nat {
    65535
}

/// One stored DEFLATE block: BFINAL|BTYPE=00, LEN, NLEN, then the bytes.
pub open spec fn stored_block(last: bool, chunk: Seq<u8>) -> Seq<u8> {
    seq![if last { 1u8 } else { 0u8 }] + le16(chunk.len() as u16) + le16(!(chunk.len() as u16))
        + chunk
}

/// `data` as a run of stored blocks of at most 65535 bytes, the last one
/// flagged final (an empty input gives one empty final block).
pub open spec fn stored_blocks(data: Seq<u8>) -> Seq<u8>
    decreases data.len(),
{
    if data.len() <= max_stored() {
        stored_block(true, data)
    } else {
        stored_block(false, data.take(65535)) + stored_blocks(data.skip(65535))
    }
}

/// The fixed GZIP member header: magic, deflate, no flags, no mtime, OS unknown.
pub open spec fn gzip_header() -> Seq<u8> {
    seq![0x1fu8, 0x8bu8, 0x08u8, 0u8, 0u8, 0u8, 0u8, 0u8, 0u8, 0xffu8]
}

/// The GZIP file for `data`: header, stored blocks, CRC-32, size mod 2^32.
pub open spec fn gzip_bytes(data: Seq<u8>) -> Seq<u8> {
    gzip_header() + stored_blocks(data) + le32(crc32_spec(data)) + le32(data.len() as u32)
}

fn push_u16_le(out: &mut Vec<u8>, x: u16)
    ensures
        final(out)@ == old(out)@ + le16(x),
{
    out.push((x & 0xff) as u8);
    out.push((x >> 8) as u8);
    assert(out@ =~= old(out)@ + le16(x));
}

fn push_u32_le(out: &mut Vec<u8>, x: u32)
    ensures
        final(out)@ == old(out)@ + le32(x),
{
    out.push((x & 0xff) as u8);
    out.push(((x >> 8) & 0xff) as u8);
    out.push(((x >> 16) & 0xff) as u8);
    out.push((x >> 24) as u8);
    assert(out@ =~= old(out)@ + le32(x));
}

fn push_range(out: &mut Vec<u8>, data: &[u8], from: usize, to: usize)
    requires
        from <= to <= data@.len(),
    ensures
        final(out)@ == old(out)@ + data@.subrange(from as int, to as int),
{
    let mut k = from;
    while k < to
        invariant
            from <= k <= to,
            to <= data@.len(),
            out@ == old(out)@ + data@.subrange(from as int, k as int),
        decreases to - k,
    {
        out.push(data[k]);
        k = k + 1;
        assert(data@.subrange(from as int, k as int) =~= data@.subrange(from as int, k - 1)
            + seq![data@[k - 1]]);
    }
}

/// Wraps `data` in a GZIP container of uncompressed (stored) DEFLATE blocks.
pub fn gzip_compress(data: &[u8]) -> (out: Vec<u8>)
    ensures
        out@ == gzip_bytes(data@),
{
    let mut out: Vec<u8> = Vec::new();
    out.push(0x1f);
    out.push(0x8b);
    out.push(0x08);
    out.push(0x00);
    out.push(0);
    out.push(0);
    out.push(0);
    out.push(0);
    out.push(0);
    out.push(0xff);
    assert(out@ =~= gzip_header());

    let len = data.len();
    let mut offset: usize = 0;
    assert(data@.skip(0) =~= data@);
    loop
        invariant_except_break
            len == data@.len(),
            offset <= len,
            offset < len || len == 0,
            out@ + stored_blocks(data@.skip(offset as int)) == gzip_header() + stored_blocks(
                data@,
            ),
        ensures
            len == data@.len(),
            out@ == gzip_header() + stored_blocks(data@),
        decreases len - offset,
    {
        let ghost rest = data@.skip(offset as int);
        let chunk_end = if len - offset > 65535 {
            offset + 65535
        } else {
            len
        };
        let is_last = chunk_end >= len;
        let clen: u16 = (chunk_end - offset) as u16;
        let nlen: u16 = !clen;
        let ghost before = out@;
        out.push(if is_last { 1u8 } else { 0u8 });
        push_u16_le(&mut out, clen);
        push_u16_le(&mut out, nlen);
        push_range(&mut out, data, offset, chunk_end);
        if is_last {
            assert(rest.len() <= 65535);
            assert(data@.subrange(offset as int, chunk_end as int) =~= rest);
            assert(out@ =~= before + stored_blocks(rest));
            break;
        }
        assert(data@.subrange(offset as int, chunk_end as int) =~= rest.take(65535));
        assert(out@ =~= before + stored_block(false, rest.take(65535)));
        assert(rest.skip(65535) =~= data@.skip(chunk_end as int));
        offset = chunk_end;
    }
    assert(out@ =~= gzip_header() + stored_blocks(data@));
    let crc = crc32(data);
    push_u32_le(&mut out, crc);
    push_u32_le(&mut out, len as u32);
    out
}


/// Value of a little-endian 16-bit field.
pub open spec fn le16_value(lo: u8, hi: u8) -> nat {
    lo as nat + 256 * hi as nat
}

/// Reads a run of stored DEFLATE blocks back: the payloads of the blocks up
/// to and including the first one flagged final.
pub open spec fn inflate_stored(bytes: Seq<u8>) -> Seq<u8>
    decreases bytes.len(),
{
    if bytes.len() < 5 {
        Seq::empty()
    } else {
        let n = le16_value(bytes[1], bytes[2]);
        if bytes.len() < 5 + n {
            Seq::empty()
        } else if bytes[0] == 1 {
            bytes.subrange(5, 5 + n as int)
        } else {
            bytes.subrange(5, 5 + n as int) + inflate_stored(bytes.skip(5 + n as int))
        }
    }
}

proof fn lemma_le16_value(x: u16)
    ensures
        le16_value((x & 0xff) as u8, (x >> 8) as u8) == x,
{
    assert(((x & 0xff) as u8) as u32 + 256 * (((x >> 8) as u8) as u32) == x as u32)
        by (bit_vector);
}

/// Reading back the stored blocks of `data`, whatever follows them, gives
/// `data` unchanged.
pub proof fn lemma_stored_blocks_roundtrip(data: Seq<u8>, tail: Seq<u8>)
    ensures
        inflate_stored(stored_blocks(data) + tail) == data,
    decreases data.len(),
{
    let bytes = stored_blocks(data) + tail;
    if data.len() <= 65535 {
        let n = data.len();
        lemma_le16_value(n as u16);
        assert(bytes[1] == ((n as u16) & 0xff) as u8);
        assert(bytes[2] == ((n as u16) >> 8) as u8);
        assert(bytes.subrange(5, 5 + n as int) =~= data);
    } else {
        let head = data.take(65535);
        let rest = data.skip(65535);
        lemma_le16_value(65535u16);
        assert(bytes[1] == ((65535u16) & 0xff) as u8);
        assert(bytes[2] == ((65535u16) >> 8) as u8);
        assert(bytes.subrange(5, 65540int) =~= head);
        assert(bytes.skip(65540int) =~= stored_blocks(rest) + tail);
        lemma_stored_blocks_roundtrip(rest, tail);
        assert(head + rest =~= data);
    }
}

/// A GZIP file written by `gzip_compress` starts with the GZIP magic bytes
/// and its DEFLATE stream reads back as the input data.
pub proof fn lemma_gzip_carries_data(data: Seq<u8>)
    ensures
        gzip_bytes(data)[0] == 0x1f,
        gzip_bytes(data)[1] == 0x8b,
        inflate_stored(gzip_bytes(data).skip(10)) == data,
{
    let tail = le32(crc32_spec(data)) + le32(data.len() as u32);
    assert(gzip_bytes(data).skip(10) =~= stored_blocks(data) + tail);
    lemma_stored_blocks_roundtrip(data, tail);
}

} // verus!
