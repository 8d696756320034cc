//! The row codec: fixed-width encoding and decoding of one record.
//!
//! An encoded row is exactly [`ROW_SIZE`] bytes: a one-byte liveness marker
//! (zero means "never written"), the four-byte little-endian id, then the
//! username and email fields, each zero-padded to its fixed width. A text
//! field longer than its width is rejected, never silently truncated.
use vstd::prelude::*;
use vstd::bytes::*;
use crate::error::{ErrorKind, ExecError};
use crate::ROW_SIZE;

verus! {

/// The liveness marker written for every stored row.
pub const LIVE_MARKER: u8 = 1;

/// Offset of the liveness byte within an encoded row.
pub const LIVENESS_OFFSET: usize = 0;

/// Offset of the little-endian id within an encoded row.
pub const ID_OFFSET: usize = 1;

/// Width in bytes of the encoded id.
pub const ID_SIZE: usize = 4;

/// Offset of the username field within an encoded row.
pub const USERNAME_OFFSET: usize = 5;

/// Fixed width in bytes of the username field.
pub const USERNAME_SIZE: usize = 32;

/// Offset of the email field within an encoded row.
pub const EMAIL_OFFSET: usize = 37;

/// Fixed width in bytes of the email field.
pub const EMAIL_SIZE: usize = 254;

/// One record: a unique numeric key and two bounded text fields, carried as
/// UTF-8 bytes.
#[derive(Debug, PartialEq, Eq)]
pub struct Row {
    pub id: u32,
    pub username: Vec<u8>,
    pub email: Vec<u8>,
}

/// The mathematical model of a row.
pub struct RowV {
    pub id: u32,
    pub username: Seq<u8>,
    pub email: Seq<u8>,
}

impl View for Row {
    type V = RowV;

    open spec fn view(&self) -> RowV {
        RowV { id: self.id, username: self.username@, email: self.email@ }
    }
}

impl RowV {
    /// The row fits the fixed field widths, so `encode_row` accepts it.
    pub open spec fn encodable(self) -> bool {
        self.username.len() <= USERNAME_SIZE && self.email.len() <= EMAIL_SIZE
    }

    /// Neither text field ends in a zero byte, so trimming the padding off
    /// the encoding gives the field back unchanged.
    pub open spec fn canonical(self) -> bool {
        trim_padding(self.username) == self.username && trim_padding(self.email) == self.email
    }

    /// A row the codec reproduces exactly: within the field widths and with
    /// no trailing zero byte in either text field.
    pub open spec fn valid(self) -> bool {
        self.encodable() && self.canonical()
    }
}

impl Row {
    /// Builds a row from its parts; nothing is checked until the row is
    /// encoded.
    pub fn new(id: u32, username: Vec<u8>, email: Vec<u8>) -> (r: Row)
        ensures
            r@ == (RowV { id, username: username@, email: email@ }),
    {
        Row { id, username, email }
    }
}

/// `s` extended with zero bytes up to width `w`.
pub open spec fn zero_pad(s: Seq<u8>, w: int) -> Seq<u8> {
    s + Seq::new((w - s.len()) as nat, |i: int| 0u8)
}

/// `s` with every trailing zero byte removed.
pub open spec fn trim_padding(s: Seq<u8>) -> Seq<u8>
    decreases s.len(),
{
    if s.len() == 0 || s.last() != 0 {
        s
    } else {
        trim_padding(s.drop_last())
    }
}

/// The exact bytes `encode_row` produces for an encodable row.
pub open spec fn spec_encode_row(r: RowV) -> Seq<u8> {
    seq![LIVE_MARKER] + spec_u32_to_le_bytes(r.id) + zero_pad(r.username, USERNAME_SIZE as int)
        + zero_pad(r.email, EMAIL_SIZE as int)
}

/// What `decode_row` reads out of `ROW_SIZE` bytes: no row at all when the
/// liveness byte is clear, otherwise the id and the two fields with their
/// padding trimmed.
pub open spec fn spec_decode_row(b: Seq<u8>) -> Option<RowV> {
    if b[LIVENESS_OFFSET as int] == 0 {
        None
    } else {
        Some(
            RowV {
                id: spec_u32_from_le_bytes(b.subrange(ID_OFFSET as int, ID_OFFSET + ID_SIZE)),
                username: trim_padding(
                    b.subrange(USERNAME_OFFSET as int, USERNAME_OFFSET + USERNAME_SIZE),
                ),
                email: trim_padding(b.subrange(EMAIL_OFFSET as int, EMAIL_OFFSET + EMAIL_SIZE)),
            },
        )
    }
}

/// The model of an optional decoded row.
pub open spec fn opt_row_view(o: Option<Row>) -> Option<RowV> {
    match o {
        Option::None => None,
        Option::Some(r) => Some(r@),
    }
}

/// Encodes one row into exactly `ROW_SIZE` bytes, or rejects a row whose
/// text exceeds its fixed width.
pub fn encode_row(r: &Row) -> (res: Result<Vec<u8>, ExecError>)
    ensures
        r@.encodable() ==> (res matches Ok(b) && b@ == spec_encode_row(r@) && b@.len()
            == ROW_SIZE),
        !r@.encodable() ==> res == Err::<Vec<u8>, ExecError>(
            ExecError { kind: ErrorKind::EncodingError },
        ),
{
    if r.username.len() > USERNAME_SIZE || r.email.len() > EMAIL_SIZE {
        return Err(ExecError { kind: ErrorKind::EncodingError });
    }
    let mut out: Vec<u8> = Vec::new();
    out.push(LIVE_MARKER);
    let mut idb = u32_to_le_bytes(r.id);
    proof {
        lemma_auto_spec_u32_to_from_le_bytes();
    }
    out.append(&mut idb);
    let ghost prefix = seq![LIVE_MARKER] + spec_u32_to_le_bytes(r.id@);
    assert(out@ =~= prefix);
    write_padded_field(&mut out, &r.username, USERNAME_SIZE);
    write_padded_field(&mut out, &r.email, EMAIL_SIZE);
    assert(out@ =~= spec_encode_row(r@));
    Ok(out)
}

/// Appends `field` and then zero bytes up to width `w`.
fn write_padded_field(out: &mut Vec<u8>, field: &Vec<u8>, w: usize)
    requires
        field@.len() <= w,
        old(out)@.len() + w <= usize::MAX,
    ensures
        final(out)@ == old(out)@ + zero_pad(field@, w as int),
{
    let ghost start = out@;
    out.extend_from_slice(field.as_slice());
    let mut k: usize = field.len();
    while k < w
        invariant
            field@.len() <= k <= w,
            out@ =~= start + field@ + Seq::new((k - field@.len()) as nat, |i: int| 0u8),
        decreases w - k,
    {
        out.push(0u8);
        k = k + 1;
    }
    assert(out@ =~= start + zero_pad(field@, w as int));
}

/// Reads the field at `bytes[off .. off + w]` with its zero padding trimmed.
fn read_trimmed_field(bytes: &[u8], off: usize, w: usize) -> (v: Vec<u8>)
    requires
        off + w <= bytes@.len(),
    ensures
        v@ == trim_padding(bytes@.subrange(off as int, off + w)),
{
    let n: usize = bytes.len();
    assert(off + w <= n);
    let mut end: usize = off + w;
    while end > off && bytes[end - 1] == 0
        invariant
            off <= end <= off + w,
            off + w <= bytes@.len(),
            trim_padding(bytes@.subrange(off as int, off + w)) == trim_padding(
                bytes@.subrange(off as int, end as int),
            ),
        decreases end,
    {
        proof {
            let s = bytes@.subrange(off as int, end as int);
            assert(s.last() == 0);
            assert(s.drop_last() =~= bytes@.subrange(off as int, end - 1));
        }
        end = end - 1;
    }
    proof {
        let s = bytes@.subrange(off as int, end as int);
        assert(s.len() == 0 || s.last() != 0);
        assert(trim_padding(s) == s);
    }
    let mut v: Vec<u8> = Vec::new();
    let mut i: usize = off;
    while i < end
        invariant
            off <= i <= end <= bytes@.len(),
            v@ =~= bytes@.subrange(off as int, i as int),
        decreases end - i,
    {
        v.push(bytes[i]);
        i = i + 1;
    }
    assert(v@ =~= bytes@.subrange(off as int, end as int));
    v
}

/// Decodes `ROW_SIZE` bytes back into a row, or into "no row" when the
/// liveness byte is clear. Any slice of another length is malformed.
pub fn decode_row(bytes: &[u8]) -> (res: Result<Option<Row>, ExecError>)
    ensures
        bytes@.len() != ROW_SIZE ==> res == Err::<Option<Row>, ExecError>(
            ExecError { kind: ErrorKind::DecodingError },
        ),
        bytes@.len() == ROW_SIZE ==> (res matches Ok(o) && opt_row_view(o) == spec_decode_row(
            bytes@,
        )),
{
    if bytes.len() != ROW_SIZE {
        return Err(ExecError { kind: ErrorKind::DecodingError });
    }
    if bytes[LIVENESS_OFFSET] == 0 {
        return Ok(None);
    }
    let id = u32_from_le_bytes(vstd::slice::slice_subrange(bytes, ID_OFFSET, ID_OFFSET + ID_SIZE));
    let username = read_trimmed_field(bytes, USERNAME_OFFSET, USERNAME_SIZE);
    let email = read_trimmed_field(bytes, EMAIL_OFFSET, EMAIL_SIZE);
    Ok(Some(Row { id, username, email }))
}

/// The row as the codec stores it: each text field with its trailing zero
/// bytes trimmed away.
pub open spec fn canonical_row(r: RowV) -> RowV {
    RowV { id: r.id, username: trim_padding(r.username), email: trim_padding(r.email) }
}

/// Padding a field and then trimming it is the same as trimming the field.
pub proof fn lemma_trim_pad_trim(s: Seq<u8>, w: int)
    requires
        s.len() <= w,
    ensures
        trim_padding(zero_pad(s, w)) == trim_padding(s),
    decreases w - s.len(),
{
    if s.len() == w {
        assert(zero_pad(s, w) =~= s);
    } else {
        let p = zero_pad(s, w);
        assert(p.last() == 0);
        assert(p.drop_last() =~= zero_pad(s, w - 1));
        lemma_trim_pad_trim(s, w - 1);
    }
}

/// Decoding the encoding of any row that fits the field widths gives the
/// row back with its text fields trimmed.
pub proof fn lemma_encode_decode(r: RowV)
    requires
        r.encodable(),
    ensures
        spec_encode_row(r).len() == ROW_SIZE,
        spec_decode_row(spec_encode_row(r)) == Some(canonical_row(r)),
{
    lemma_auto_spec_u32_to_from_le_bytes();
    let b = spec_encode_row(r);
    assert(b.len() == ROW_SIZE);
    assert(b[LIVENESS_OFFSET as int] == LIVE_MARKER);
    assert(b.subrange(ID_OFFSET as int, ID_OFFSET + ID_SIZE) =~= spec_u32_to_le_bytes(r.id));
    assert(b.subrange(USERNAME_OFFSET as int, USERNAME_OFFSET + USERNAME_SIZE) =~= zero_pad(
        r.username,
        USERNAME_SIZE as int,
    ));
    assert(b.subrange(EMAIL_OFFSET as int, EMAIL_OFFSET + EMAIL_SIZE) =~= zero_pad(
        r.email,
        EMAIL_SIZE as int,
    ));
    lemma_trim_pad_trim(r.username, USERNAME_SIZE as int);
    lemma_trim_pad_trim(r.email, EMAIL_SIZE as int);
}

/// Round trip: decoding the encoding of any valid row gives that row back
/// exactly.
pub proof fn lemma_row_round_trip(r: RowV)
    requires
        r.valid(),
    ensures
        spec_encode_row(r).len() == ROW_SIZE,
        spec_decode_row(spec_encode_row(r)) == Some(r),
{
    lemma_encode_decode(r);
}

/// An unwritten slot — one whose liveness byte is still zero — decodes to
/// "no row", never to a malformed row.
pub proof fn lemma_empty_slot_decodes_to_none(b: Seq<u8>)
    requires
        b.len() == ROW_SIZE,
        b[LIVENESS_OFFSET as int] == 0,
    ensures
        spec_decode_row(b) == Option::<RowV>::None,
{
}

/// Trimming never lengthens a field.
pub proof fn lemma_trim_len(s: Seq<u8>)
    ensures
        trim_padding(s).len() <= s.len(),
    decreases s.len(),
{
    if !(s.len() == 0 || s.last() != 0) {
        lemma_trim_len(s.drop_last());
    }
}

/// A trimmed field never ends in a zero byte, so trimming is idempotent.
pub proof fn lemma_trim_idempotent(s: Seq<u8>)
    ensures
        trim_padding(s).len() == 0 || trim_padding(s).last() != 0,
        trim_padding(trim_padding(s)) == trim_padding(s),
    decreases s.len(),
{
    if !(s.len() == 0 || s.last() != 0) {
        lemma_trim_idempotent(s.drop_last());
    }
}

/// Trimming the trailing zeros off a full-width field and padding it back
/// restores the field exactly.
pub proof fn lemma_pad_trim_exact(s: Seq<u8>, w: int)
    requires
        s.len() == w,
    ensures
        zero_pad(trim_padding(s), w) == s,
    decreases s.len(),
{
    if s.len() == 0 || s.last() != 0 {
        assert(zero_pad(trim_padding(s), w) =~= s);
    } else {
        lemma_pad_trim_exact(s.drop_last(), w - 1);
        assert(zero_pad(trim_padding(s), w) =~= zero_pad(trim_padding(s.drop_last()), w - 1).push(
            0u8,
        ));
        assert(zero_pad(trim_padding(s.drop_last()), w - 1).push(0u8) =~= s);
    }
}

/// Every decoded row is valid: within the field widths, with no trailing
/// zero byte left in either field.
pub proof fn lemma_decoded_valid(b: Seq<u8>)
    requires
        b.len() == ROW_SIZE,
        spec_decode_row(b) is Some,
    ensures
        spec_decode_row(b)->Some_0.valid(),
{
    lemma_trim_len(b.subrange(USERNAME_OFFSET as int, USERNAME_OFFSET + USERNAME_SIZE));
    lemma_trim_len(b.subrange(EMAIL_OFFSET as int, EMAIL_OFFSET + EMAIL_SIZE));
    lemma_trim_idempotent(b.subrange(USERNAME_OFFSET as int, USERNAME_OFFSET + USERNAME_SIZE));
    lemma_trim_idempotent(b.subrange(EMAIL_OFFSET as int, EMAIL_OFFSET + EMAIL_SIZE));
}

/// Stored bytes re-encode exactly: encoding the row read out of a stored
/// slot gives back the very bytes of that slot.
pub proof fn lemma_decode_encode(b: Seq<u8>)
    requires
        b.len() == ROW_SIZE,
        b[LIVENESS_OFFSET as int] == LIVE_MARKER,
    ensures
        spec_decode_row(b) is Some,
        spec_encode_row(spec_decode_row(b)->Some_0) == b,
{
    lemma_auto_spec_u32_to_from_le_bytes();
    let r = spec_decode_row(b)->Some_0;
    lemma_pad_trim_exact(
        b.subrange(USERNAME_OFFSET as int, USERNAME_OFFSET + USERNAME_SIZE),
        USERNAME_SIZE as int,
    );
    lemma_pad_trim_exact(
        b.subrange(EMAIL_OFFSET as int, EMAIL_OFFSET + EMAIL_SIZE),
        EMAIL_SIZE as int,
    );
    assert(spec_encode_row(r) =~= b);
}

} // verus!

