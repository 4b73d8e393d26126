//! dBASE (`.dbf`) attribute tables as ESRI shapefiles pair them with their
//! geometry: the header's record count and lengths, the field descriptors
//! (name and byte width, laid out after the one-byte deletion flag), and
//! per-record field values read back as trimmed text, decoded as the
//! table's `.cpg` declares (UTF-8, or ASCII with every other byte shown as
//! `?`).

use crate::text::{
    dec_digits, digits_of_u64, push_char, push_chars, push_str, seq_contains, str_contains, string_from_chars,
    trim_chars, trim_seq,
};
use vstd::prelude::*;
use vstd::utf8::{decode_utf8, valid_utf8};

verus! {

broadcast use vstd::string::group_string_axioms;

/// How a table's text fields are decoded.
#[derive(Clone, Copy, PartialEq, Eq, Structural, Debug)]
pub enum TextEncoding {
    /// Real UTF-8 (invalid sequences become U+FFFD).
    Utf8,
    /// ASCII passes through; any other byte becomes `?`.
    AsciiLossy,
}

/// What `str::to_uppercase` returns for the characters `s`.
pub uninterp spec fn uppercase_of(s: Seq<char>) -> Seq<char>;

/// `s` with `a`..=`z` mapped to `A`..=`Z` and every other character kept.
pub open spec fn ascii_upper(s: Seq<char>) -> Seq<char> {
    Seq::new(
        s.len(),
        |i: int|
            if 'a' <= s[i] && s[i] <= 'z' {
                ((s[i] as u32) - 32) as char
            } else {
                s[i]
            },
    )
}

/// `str::to_uppercase`. Its result is named [`uppercase_of`] of the input;
/// ASCII text comes back with `a`..=`z` uppercased and nothing else
/// changed, as std documents for ASCII; what Unicode's uppercase mapping
/// does to other characters is left unsaid.
#[verifier::external_body]
fn to_uppercase(s: &str) -> (r: String)
    ensures
        r@ == uppercase_of(s@),
        crate::projection::is_ascii_seq(s@) ==> r@ == ascii_upper(s@),
{
    s.to_uppercase()
}

/// The encoding a `.cpg` file's text declares: UTF-8 when its uppercased
/// text mentions `UTF-8` or `UTF8`, ASCII-lossy otherwise.
pub open spec fn cpg_encoding(content: Seq<char>) -> TextEncoding {
    let up = uppercase_of(content);
    if seq_contains(up, "UTF-8"@) || seq_contains(up, "UTF8"@) {
        TextEncoding::Utf8
    } else {
        TextEncoding::AsciiLossy
    }
}

/// Classifies the text of a table's `.cpg` codepage file.
pub fn classify_cpg(content: &str) -> (e: TextEncoding)
    ensures
        e == cpg_encoding(content@),
{
    let up = to_uppercase(content);
    let chars = crate::text::chars_of(up.as_str());
    if str_contains(chars.as_slice(), "UTF-8") || str_contains(chars.as_slice(), "UTF8") {
        TextEncoding::Utf8
    } else {
        TextEncoding::AsciiLossy
    }
}

/// What `String::from_utf8_lossy` gives for `bytes`.
pub uninterp spec fn utf8_lossy_of(bytes: Seq<u8>) -> Seq<char>;

/// `String::from_utf8_lossy`. Its result is named [`utf8_lossy_of`] of the
/// bytes; for valid UTF-8 it is the decoded text, as the documentation
/// says.  How invalid sequences are replaced is left unsaid.
#[verifier::external_body]
fn from_utf8_lossy(bytes: &[u8]) -> (s: String)
    ensures
        s@ == utf8_lossy_of(bytes@),
        valid_utf8(bytes@) ==> s@ == decode_utf8(bytes@),
{
    String::from_utf8_lossy(bytes).into_owned()
}

/// ASCII bytes as characters, every other byte as `?`.
pub open spec fn ascii_lossy(bytes: Seq<u8>) -> Seq<char> {
    Seq::new(bytes.len(), |i: int| if bytes[i] < 128 { bytes[i] as char } else { '?' })
}

/// Decodes `bytes` as ASCII, replacing every non-ASCII byte with `?`.
fn decode_cp949_lossy(bytes: &[u8]) -> (s: Vec<char>)
    ensures
        s@ == ascii_lossy(bytes@),
{
    let mut out: Vec<char> = Vec::new();
    let mut i: usize = 0;
    while i < bytes.len()
        invariant
            i <= bytes@.len(),
            out@ == ascii_lossy(bytes@.take(i as int)),
        decreases bytes.len() - i,
    {
        let b = bytes[i];
        let c = if b < 128 {
            b as char
        } else {
            '?'
        };
        out.push(c);
        assert(out@ =~= ascii_lossy(bytes@.take(i + 1)));
        i += 1;
    }
    assert(bytes@.take(bytes.len() as int) =~= bytes@);
    out
}

/// The decoded text of a field's raw bytes.
pub open spec fn decode_text(enc: TextEncoding, raw: Seq<u8>) -> Seq<char> {
    match enc {
        TextEncoding::Utf8 => utf8_lossy_of(raw),
        TextEncoding::AsciiLossy => ascii_lossy(raw),
    }
}

/// Little-endian `u16` at `i`.
pub open spec fn le_u16(d: Seq<u8>, i: int) -> int {
    d[i] + 256 * d[i + 1]
}

/// Little-endian `u32` at `i`.
pub open spec fn le_u32(d: Seq<u8>, i: int) -> int {
    d[i] + 256 * d[i + 1] + 65536 * d[i + 2] + 16777216 * d[i + 3]
}

/// Index of the first zero byte of `s` at or after `i`, or `s.len()`.
pub open spec fn zero_index(s: Seq<u8>, i: int) -> int
    decreases s.len() - i,
{
    if i < 0 || i >= s.len() {
        s.len() as int
    } else if s[i] == 0 {
        i
    } else {
        zero_index(s, i + 1)
    }
}

/// The name of the field descriptor at `pos`: its first 11 bytes up to
/// the first zero, decoded lossily as UTF-8 and trimmed.
pub open spec fn descriptor_name(d: Seq<u8>, pos: int) -> Seq<char> {
    let raw = d.subrange(pos, pos + 11);
    trim_seq(utf8_lossy_of(raw.take(zero_index(raw, 0))))
}

/// The field descriptors from `pos` on, each `(name, offset, len)`, the
/// offset counting from `offset`: descriptors are read while `pos + 1` is
/// below the header length and the byte at `pos` is not the `0x0D`
/// terminator, stopping early at a descriptor that would run past the
/// data.  `None` when the scan would read the byte at `pos` past the end
/// of the data.
pub open spec fn scan_fields(d: Seq<u8>, pos: int, offset: int, hl: int) -> Option<Seq<(Seq<char>, int, int)>>
    decreases d.len() - pos,
{
    if !(pos + 1 < hl) {
        Some(Seq::empty())
    } else if pos < 0 || pos >= d.len() {
        None
    } else if d[pos] == 0x0D {
        Some(Seq::empty())
    } else if pos + 32 > d.len() {
        Some(Seq::empty())
    } else {
        match scan_fields(d, pos + 32, offset + d[pos + 16], hl) {
            Some(rest) => Some(seq![(descriptor_name(d, pos), offset, d[pos + 16] as int)] + rest),
            None => None,
        }
    }
}

struct DbfField {
    name: String,
    offset: usize,
    len: usize,
}

/// A parsed dBASE table: field layout plus the raw record bytes, sliced by
/// field name per row.
pub struct DbfTable {
    fields: Vec<DbfField>,
    record_len: usize,
    records: Vec<u8>,
    num_records: usize,
    encoding: TextEncoding,
}

/// The largest end offset of any field within a record.
pub open spec fn fields_fit(fields: Seq<(Seq<char>, int, int)>) -> bool {
    forall|i: int| 0 <= i < fields.len() ==> 0 <= (#[trigger] fields[i]).1 && 0 <= fields[i].2 && fields[i].1 + fields[i].2 <= 600_000
}

impl DbfTable {
    /// Field descriptors `(name, offset, len)`, in file order.
    pub closed spec fn spec_fields(&self) -> Seq<(Seq<char>, int, int)> {
        self.fields@.map_values(|f: DbfField| (f.name@, f.offset as int, f.len as int))
    }

    /// Bytes per record (deletion flag included).
    pub closed spec fn spec_record_len(&self) -> int {
        self.record_len as int
    }

    /// The record bytes, from the end of the header on.
    pub closed spec fn spec_records(&self) -> Seq<u8> {
        self.records@
    }

    /// The record count the header declares.
    pub closed spec fn spec_len(&self) -> int {
        self.num_records as int
    }

    /// How text fields are decoded.
    pub closed spec fn spec_encoding(&self) -> TextEncoding {
        self.encoding
    }

    /// Every field ends within 600 000 bytes of its record's start.
    #[verifier::type_invariant]
    pub closed spec fn inv(&self) -> bool {
        fields_fit(self.spec_fields()) && self.record_len <= 65535
    }
}

/// Whether the header scan of `d` stays within the data (the table can be
/// read).
pub open spec fn dbf_readable(d: Seq<u8>) -> bool {
    d.len() >= 32 ==> scan_fields(d, 32, 1, le_u16(d, 8)) is Some
}

proof fn lemma_scan_fits(d: Seq<u8>, pos: int, offset: int, hl: int)
    requires
        scan_fields(d, pos, offset, hl) is Some,
        0 <= offset,
        pos >= 32,
        hl <= 65535,
        offset <= 1 + 255 * ((pos - 32) / 32),
        (pos - 32) % 32 == 0,
    ensures
        fields_fit(scan_fields(d, pos, offset, hl).unwrap()),
    decreases d.len() - pos,
{
    if pos + 1 < hl && 0 <= pos < d.len() && d[pos] != 0x0D && pos + 32 <= d.len() {
        lemma_scan_fits(d, pos + 32, offset + d[pos + 16], hl);
        let rest = scan_fields(d, pos + 32, offset + d[pos + 16], hl).unwrap();
        let all = scan_fields(d, pos, offset, hl).unwrap();
        assert(all == seq![(descriptor_name(d, pos), offset, d[pos + 16] as int)] + rest);
        assert forall|i: int| 0 <= i < all.len() implies 0 <= (#[trigger] all[i]).1 && 0 <= all[i].2 && all[i].1 + all[i].2 <= 600_000 by {
            if i > 0 {
                assert(all[i] == rest[i - 1]);
            }
        }
    }
}

/// Whether the header scan of `data` stays within the data, so that
/// [`DbfTable::parse`] can read it.
pub fn dbf_header_in_bounds(data: &[u8]) -> (r: bool)
    ensures
        r == dbf_readable(data@),
{
    if data.len() < 32 {
        return true;
    }
    let header_len = (data[8] as usize) + 256 * (data[9] as usize);
    let mut pos: usize = 32;
    let ghost mut off: int = 1;
    while pos + 1 < header_len
        invariant
            32 <= pos <= 65600,
            data@.len() >= 32,
            header_len == le_u16(data@, 8),
            header_len <= 65535,
            scan_fields(data@, 32, 1, header_len as int) is Some <==> scan_fields(data@, pos as int, off, header_len as int) is Some,
        decreases 65600 - pos,
    {
        if pos >= data.len() {
            assert(scan_fields(data@, pos as int, off, header_len as int) is None);
            assert(data@.len() >= 32);
            assert(!dbf_readable(data@));
            return false;
        }
        if data[pos] == 0x0D || pos + 32 > data.len() {
            return true;
        }
        proof {
            off = off + data@[pos + 16];
        }
        pos += 32;
    }
    true
}

/// The text value of field `name` in record `index` of a table of `count`
/// records: empty when the index is at or past the record count, when no
/// field has that name or when the record runs past the data, else the
/// field's bytes decoded and trimmed.  The first field with the name counts.
pub open spec fn field_value(
    fields: Seq<(Seq<char>, int, int)>,
    record_len: int,
    records: Seq<u8>,
    enc: TextEncoding,
    count: int,
    index: int,
    name: Seq<char>,
) -> Seq<char> {
    if index >= count {
        Seq::empty()
    } else if exists|i: int| 0 <= i < fields.len() && fields[i].0 == name {
        let i = choose|i: int| 0 <= i < fields.len() && fields[i].0 == name && forall|k: int| 0 <= k < i ==> fields[k].0 != name;
        let start = index * record_len + fields[i].1;
        let end = start + fields[i].2;
        if end > records.len() {
            Seq::empty()
        } else {
            trim_seq(decode_text(enc, records.subrange(start, end)))
        }
    } else {
        Seq::empty()
    }
}

impl DbfTable {
    /// Parses a table from the `.dbf` bytes, text decoded as `encoding`:
    /// the record count (little-endian `u32` at 4), header length (`u16` at
    /// 8), record length (`u16` at 10), the field descriptors from byte 32
    /// on, and the records from the end of the header (none when the header
    /// claims more than the data holds).  Fails when the data is shorter
    /// than the 32-byte header.
    pub fn parse(data: &[u8], encoding: TextEncoding) -> (r: Result<DbfTable, String>)
        requires
            dbf_readable(data@),
        ensures
            r is Err <==> data@.len() < 32,
            r matches Err(e) ==> e@ == "dbf shorter than header"@,
            r matches Ok(t) ==> {
                &&& t.spec_len() == le_u32(data@, 4)
                &&& t.spec_record_len() == le_u16(data@, 10)
                &&& Some(t.spec_fields()) == scan_fields(data@, 32, 1, le_u16(data@, 8))
                &&& t.spec_records() == (if le_u16(data@, 8) <= data@.len() {
                    data@.skip(le_u16(data@, 8))
                } else {
                    Seq::empty()
                })
                &&& t.spec_encoding() == encoding
            },
    {
        if data.len() < 32 {
            return Err(crate::text::string_of("dbf shorter than header"));
        }
        let num_records = (data[4] as usize) + 256 * (data[5] as usize) + 65536 * (data[6] as usize) + 16777216 * (
        data[7] as usize);
        let header_len = (data[8] as usize) + 256 * (data[9] as usize);
        let record_len = (data[10] as usize) + 256 * (data[11] as usize);
        let mut fields: Vec<DbfField> = Vec::new();
        let mut offset: usize = 1;
        let mut pos: usize = 32;
        let ghost full = scan_fields(data@, 32, 1, header_len as int).unwrap();
        proof {
            lemma_scan_fits(data@, 32, 1, header_len as int);
        }
        let mut done = false;
        while !done
            invariant
                32 <= pos <= 65600,
                (pos - 32) % 32 == 0,
                header_len == le_u16(data@, 8),
                header_len <= 65535,
                1 <= offset <= 1 + 255 * ((pos - 32) / 32),
                scan_fields(data@, pos as int, offset as int, header_len as int) is Some,
                scan_fields(data@, 32, 1, header_len as int) == Some(full),
                full == fields@.map_values(|f: DbfField| (f.name@, f.offset as int, f.len as int))
                    + scan_fields(data@, pos as int, offset as int, header_len as int).unwrap(),
                done ==> scan_fields(data@, pos as int, offset as int, header_len as int) == Some(
                    Seq::<(Seq<char>, int, int)>::empty(),
                ),
            decreases (65600 - pos) * 2 + (if done { 0int } else { 1int }),
        {
            if !(pos + 1 < header_len) || data[pos] == 0x0D || pos + 32 > data.len() {
                done = true;
                continue;
            }
            let raw = &data[pos..pos + 11];
            let mut name_len: usize = 0;
            while name_len < 11 && raw[name_len] != 0
                invariant
                    pos + 32 <= data@.len(),
                    raw@.len() == 11,
                    raw@ == data@.subrange(pos as int, pos + 11),
                    name_len <= 11,
                    zero_index(raw@, 0) == zero_index(raw@, name_len as int),
                decreases 11 - name_len,
            {
                name_len += 1;
            }
            let decoded = from_utf8_lossy(&raw[0..name_len]);
            let chars = crate::text::chars_of(decoded.as_str());
            let trimmed = trim_chars(chars.as_slice());
            let name = string_from_chars(trimmed.as_slice());
            let len = data[pos + 16] as usize;
            let ghost before = fields@.map_values(|f: DbfField| (f.name@, f.offset as int, f.len as int));
            assert(raw@.take(zero_index(raw@, 0)) =~= raw@.subrange(0, name_len as int));
            fields.push(DbfField { name, offset, len });
            proof {
                let rest = scan_fields(data@, pos + 32, offset + len, header_len as int);
                assert(fields@.map_values(|f: DbfField| (f.name@, f.offset as int, f.len as int)) =~= before.push(
                    (descriptor_name(data@, pos as int), offset as int, len as int),
                ));
                assert(full =~= fields@.map_values(|f: DbfField| (f.name@, f.offset as int, f.len as int))
                    + rest.unwrap());
            }
            offset += len;
            pos += 32;
        }
        assert(fields@.map_values(|f: DbfField| (f.name@, f.offset as int, f.len as int)) =~= full);
        let records = if header_len <= data.len() {
            let mut v: Vec<u8> = Vec::new();
            let mut k: usize = header_len;
            while k < data.len()
                invariant
                    header_len <= k <= data@.len(),
                    v@ == data@.subrange(header_len as int, k as int),
                decreases data.len() - k,
            {
                v.push(data[k]);
                assert(v@ =~= data@.subrange(header_len as int, k + 1));
                k += 1;
            }
            assert(v@ =~= data@.skip(header_len as int));
            v
        } else {
            Vec::new()
        };
        Ok(DbfTable { fields, record_len, records, num_records, encoding })
    }

    /// The record count the header declares.
    pub fn len(&self) -> (n: usize)
        ensures
            n == self.spec_len(),
    {
        self.num_records
    }

    /// Bytes per record, as the header declares.
    pub fn record_len(&self) -> (n: usize)
        ensures
            n == self.spec_record_len(),
    {
        self.record_len
    }

    /// The table's field names, in file order.
    pub fn field_names(&self) -> (r: Vec<&str>)
        ensures
            r@.len() == self.spec_fields().len(),
            forall|i: int| 0 <= i < r@.len() ==> (#[trigger] r@[i])@ == self.spec_fields()[i].0,
    {
        let mut r: Vec<&str> = Vec::new();
        let mut i: usize = 0;
        while i < self.fields.len()
            invariant
                i <= self.fields@.len(),
                r@.len() == i,
                forall|k: int| 0 <= k < i ==> (#[trigger] r@[k])@ == self.fields@[k].name@,
            decreases self.fields.len() - i,
        {
            r.push(self.fields[i].name.as_str());
            i += 1;
        }
        r
    }

    /// One record's field value as trimmed text (see [`field_value`]).
    pub fn get(&self, record_index: usize, field_name: &str) -> (s: String)
        ensures
            s@ == field_value(
                self.spec_fields(),
                self.spec_record_len(),
                self.spec_records(),
                self.spec_encoding(),
                self.spec_len(),
                record_index as int,
                field_name@,
            ),
    {
        if record_index >= self.len() {
            return String::new();
        }
        proof {
            use_type_invariant(self);
        }
        let ghost fs = self.spec_fields();
        let mut i: usize = 0;
        let mut found = false;
        while !found && i < self.fields.len()
            invariant
                i <= self.fields@.len(),
                fs == self.spec_fields(),
                forall|k: int| 0 <= k < i ==> fs[k].0 != field_name@,
                found ==> i < self.fields@.len() && fs[i as int].0 == field_name@,
            decreases self.fields.len() - i + (if found { 0int } else { 1int }),
        {
            if crate::text::str_eq(self.fields[i].name.as_str(), field_name) {
                found = true;
            } else {
                i += 1;
            }
        }
        if !found {
            return String::new();
        }
        let field = &self.fields[i];
        assert(fs[i as int].0 == field_name@);
        let ghost j = choose|j: int| 0 <= j < fs.len() && fs[j].0 == field_name@ && forall|k: int| 0 <= k < j ==> fs[k].0 != field_name@;
        assert(j == i) by {
            if j < i {
                assert(fs[j].0 != field_name@);
            }
            if j > i {
                assert(fs[i as int].0 != field_name@);
            }
        }
        assert(fields_fit(fs));
        assert(0 <= fs[i as int].1 && fs[i as int].1 + fs[i as int].2 <= 600_000);
        // A field whose end does not fit in `usize` lies past the data too.
        let stored = self.records.len();
        let ghost past: int = record_index * self.spec_record_len() + fs[i as int].1 + fs[i as int].2;
        assert(fs[i as int].1 == field.offset && fs[i as int].2 == field.len);
        let rec_start = match record_index.checked_mul(self.record_len) {
            Some(v) => v,
            None => {
                assert(past > self.spec_records().len());
                return String::new();
            },
        };
        let start = match rec_start.checked_add(field.offset) {
            Some(v) => v,
            None => {
                assert(past > self.spec_records().len());
                return String::new();
            },
        };
        let end = match start.checked_add(field.len) {
            Some(v) => v,
            None => {
                assert(past > self.spec_records().len());
                return String::new();
            },
        };
        if end > stored {
            return String::new();
        }
        let raw = &self.records.as_slice()[start..end];
        let text = match self.encoding {
            TextEncoding::Utf8 => {
                let d = from_utf8_lossy(raw);
                crate::text::chars_of(d.as_str())
            },
            TextEncoding::AsciiLossy => decode_cp949_lossy(raw),
        };
        let t = trim_chars(text.as_slice());
        string_from_chars(t.as_slice())
    }
}

/// Whether record `i` carries the deletion flag (`0x2A` as its first byte).
pub open spec fn deleted_at(records: Seq<u8>, record_len: int, i: int) -> bool {
    0 <= i * record_len < records.len() && records[i * record_len] == 0x2A
}

/// How many of the first `n` records carry the deletion flag.
pub open spec fn deleted_count(records: Seq<u8>, record_len: int, n: int) -> int
    decreases n,
{
    if n <= 0 {
        0
    } else {
        deleted_count(records, record_len, n - 1) + if deleted_at(records, record_len, n - 1) { 1int } else { 0int }
    }
}

/// The message for a `.dbf`/`.shp` pair whose counts disagree.
pub open spec fn row_mismatch_message(label: Seq<char>, records: int, shapes: int) -> Seq<char> {
    label + ": dbf has "@ + dec_digits(records as nat) + " records but shp has "@ + dec_digits(shapes as nat) + " shapes"@
}

impl DbfTable {
    /// Whether record `record_index` is flagged deleted (its first byte is
    /// `*`); a record past the end is not.
    pub fn is_deleted(&self, record_index: usize) -> (r: bool)
        ensures
            r == deleted_at(self.spec_records(), self.spec_record_len(), record_index as int),
    {
        let stored = self.records.len();
        match record_index.checked_mul(self.record_len) {
            Some(rec_start) => rec_start < stored && self.records[rec_start] == 0x2A,
            // An offset past `usize` lies past the data too.
            None => false,
        }
    }
}

/// Reconciles a table's record count against its geometry count (the two
/// are paired by position): the number of records flagged deleted (they
/// still count, pairing being positional), and an error naming both counts
/// when they differ.
pub fn assert_row_counts_match(dbf: &DbfTable, geometry_count: usize, label: &str) -> (r: (usize, Result<(), String>))
    ensures
        r.0 == deleted_count(dbf.spec_records(), dbf.spec_record_len(), dbf.spec_len()),
        r.1 is Ok <==> dbf.spec_len() == geometry_count,
        r.1 matches Err(e) ==> e@ == row_mismatch_message(label@, dbf.spec_len(), geometry_count as int),
{
    let n = dbf.len();
    let mut deleted: usize = 0;
    let mut i: usize = 0;
    while i < n
        invariant
            i <= n,
            n == dbf.spec_len(),
            deleted <= i,
            deleted == deleted_count(dbf.spec_records(), dbf.spec_record_len(), i as int),
        decreases n - i,
    {
        if dbf.is_deleted(i) {
            deleted += 1;
        }
        i += 1;
    }
    if n != geometry_count {
        let mut msg = crate::text::string_of(label);
        push_str(&mut msg, ": dbf has ");
        push_chars(&mut msg, digits_of_u64(n as u64).as_slice());
        push_str(&mut msg, " records but shp has ");
        push_chars(&mut msg, digits_of_u64(geometry_count as u64).as_slice());
        push_str(&mut msg, " shapes");
        assert(msg@ =~= row_mismatch_message(label@, n as int, geometry_count as int));
        return (deleted, Err(msg));
    }
    (deleted, Ok(()))
}

} // verus!
