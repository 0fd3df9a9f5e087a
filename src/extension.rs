//! Extensions are optional data frames sitting before the voxel data.
//! When present, an extender frame of 4 bytes sits at the end of the
//! NIfTI-1 header, with its first byte set to something other than 0.

use crate::wire::{i32_at, read_i32_at, reserve_exact, ByteOrder};
use vstd::prelude::*;
use vstd::std_specs::slice::into_iter_elts;
use vstd::string::StringSliceAdditionalSpecFns;

verus! {

/// Known NIfTI-1.1 extension codes. The decoder keeps codes as plain
/// integers, so that unknown codes pass through untouched.
#[derive(Debug, PartialEq, Eq, Hash, Clone, Copy, Structural)]
pub enum NiftiEcode {
    /// Ignore the extension
    NiftEcodeIgnore,
    /// DICOM
    NiftiEcodeDicom,
    /// AFNI extension in XML format
    NiftiEcodeAFNI,
    /// String Comment
    NiftiEcodeComment,
    /// XCEDE extension in XML format
    NiftiEcodeXCEDE,
    /// JimDimInfo
    NiftiEcodeJimDimInfo,
    /// WorkflowFWDS
    NiftiEcodeWorkflowFWDS,
    /// Freesurfer
    NiftiEcodeFreesurfer,
}

/// The integer that stands for each known extension code on disk.
pub open spec fn ecode_value(c: NiftiEcode) -> i32 {
    match c {
        NiftiEcode::NiftEcodeIgnore => 0,
        NiftiEcode::NiftiEcodeDicom => 2,
        NiftiEcode::NiftiEcodeAFNI => 4,
        NiftiEcode::NiftiEcodeComment => 6,
        NiftiEcode::NiftiEcodeXCEDE => 8,
        NiftiEcode::NiftiEcodeJimDimInfo => 10,
        NiftiEcode::NiftiEcodeWorkflowFWDS => 12,
        NiftiEcode::NiftiEcodeFreesurfer => 14,
    }
}

impl NiftiEcode {
    /// The integer code of this variant.
    pub fn value(self) -> (r: i32)
        ensures
            r == ecode_value(self),
    {
        match self {
            NiftiEcode::NiftEcodeIgnore => 0,
            NiftiEcode::NiftiEcodeDicom => 2,
            NiftiEcode::NiftiEcodeAFNI => 4,
            NiftiEcode::NiftiEcodeComment => 6,
            NiftiEcode::NiftiEcodeXCEDE => 8,
            NiftiEcode::NiftiEcodeJimDimInfo => 10,
            NiftiEcode::NiftiEcodeWorkflowFWDS => 12,
            NiftiEcode::NiftiEcodeFreesurfer => 14,
        }
    }

    /// The known variant for an integer code, if there is one.
    pub fn from_value(code: i32) -> (r: Option<NiftiEcode>)
        ensures
            r matches Some(c) ==> ecode_value(c) == code,
            r is None <==> (forall|c: NiftiEcode| ecode_value(c) != code),
    {
        let r = match code {
            0 => Some(NiftiEcode::NiftEcodeIgnore),
            2 => Some(NiftiEcode::NiftiEcodeDicom),
            4 => Some(NiftiEcode::NiftiEcodeAFNI),
            6 => Some(NiftiEcode::NiftiEcodeComment),
            8 => Some(NiftiEcode::NiftiEcodeXCEDE),
            10 => Some(NiftiEcode::NiftiEcodeJimDimInfo),
            12 => Some(NiftiEcode::NiftiEcodeWorkflowFWDS),
            14 => Some(NiftiEcode::NiftiEcodeFreesurfer),
            _ => None,
        };
        proof {
            if let Some(c) = r {
                assert(ecode_value(c) == code);
            }
            if r is None {
                assert forall|c: NiftiEcode| ecode_value(c) != code by {
                    match c {
                        NiftiEcode::NiftEcodeIgnore => {},
                        _ => {},
                    }
                }
            }
        }
        r
    }
}

/// Errors of decoding an extension sequence.
#[derive(Debug, PartialEq, Eq, Clone, Copy, Structural)]
pub enum NiftiError {
    /// The source ended inside a record's size or code field.
    UnexpectedEof,
    /// Reserving room for a payload of this many bytes failed.
    ReserveExtended(usize),
    /// A payload was cut short: (bytes obtained, bytes expected).
    IncompatibleLength(usize, usize),
}


/// The 4-byte extender code; extensions follow when its first byte is non-zero.
#[derive(Debug, Default, PartialEq, Clone, Copy)]
pub struct Extender([u8; 4]);

impl View for Extender {
    type V = Seq<u8>;

    closed spec fn view(&self) -> Seq<u8> {
        self.0@
    }
}

/// Whether an extender with these bytes announces an extension sequence.
pub open spec fn announces_extensions(extender: Seq<u8>) -> bool {
    extender[0] != 0
}

impl Extender {
    /// Whether extensions should exist upon this extender code.
    pub fn has_extensions(&self) -> (r: bool)
        ensures
            r == announces_extensions(self@),
    {
        self.0[0] != 0
    }

    /// Get the extender's bytes.
    pub fn as_bytes(&self) -> (r: &[u8; 4])
        ensures
            r@ == self@,
    {
        &self.0
    }
}

impl From<[u8; 4]> for Extender {
    fn from(extender: [u8; 4]) -> (r: Self)
        ensures
            r@ == extender@,
    {
        Extender(extender)
    }
}

impl vstd::std_specs::convert::FromSpecImpl<[u8; 4]> for Extender {
    open spec fn obeys_from_spec() -> bool {
        false
    }

    open spec fn from_spec(v: [u8; 4]) -> Self {
        arbitrary()
    }
}

/// What an extension holds: its code and its payload. The declared size is
/// always `8` plus the payload's length.
pub ghost struct ExtensionView {
    pub code: i32,
    pub data: Seq<u8>,
}

impl ExtensionView {
    /// The size this record takes on disk: its two 4-byte fields and the payload.
    pub open spec fn size(self) -> int {
        8 + self.data.len() as int
    }
}

/// The sum of the sizes of `records`.
pub open spec fn total_size(records: Seq<ExtensionView>) -> int
    decreases records.len(),
{
    if records.len() == 0 {
        0
    } else {
        total_size(records.drop_last()) + records.last().size()
    }
}

/// The payload length that a declared size announces, never below zero.
pub open spec fn spec_payload_len(esize: i32) -> int {
    if esize > 8 {
        esize - 8
    } else {
        0
    }
}

/// The size, rounded up to a multiple of 16, of a record holding `n` bytes of text.
pub open spec fn padded_size(n: int) -> int {
    ((8 + n + 15) / 16) * 16
}

/// The record that `Extension::from_str` builds: the text, then zero bytes
/// up to the padded size.
pub open spec fn from_text_view(code: i32, text: Seq<u8>) -> ExtensionView {
    ExtensionView {
        code,
        data: text + Seq::new((padded_size(text.len() as int) - 8 - text.len()) as nat, |i: int| 0u8),
    }
}

/// Data type for the raw contents of an extension. Users of this type
/// reinterpret the payload to suit their needs.
#[derive(Debug, PartialEq)]
pub struct Extension {
    esize: i32,
    ecode: i32,
    edata: Vec<u8>,
}

impl View for Extension {
    type V = ExtensionView;

    closed spec fn view(&self) -> ExtensionView {
        ExtensionView { code: self.ecode, data: self.edata@ }
    }
}

impl Clone for Extension {
    fn clone(&self) -> (r: Self)
        ensures
            r@ == self@,
    {
        proof {
            use_type_invariant(self);
        }
        let edata = self.edata.clone();
        assert(edata@ =~= self.edata@);
        Extension { esize: self.esize, ecode: self.ecode, edata }
    }
}

impl Extension {
    #[verifier::type_invariant]
    spec fn size_matches(&self) -> bool {
        self.esize == 8 + self.edata@.len()
    }

    /// Create an extension out of its main components; `esize` must be the
    /// full size of the extension in bytes, `8 + edata.len()`.
    pub fn new(esize: i32, ecode: i32, edata: Vec<u8>) -> (r: Self)
        requires
            esize == 8 + edata@.len(),
        ensures
            r@ == (ExtensionView { code: ecode, data: edata@ }),
    {
        Extension { esize, ecode, edata }
    }

    /// Create a new extension out of a text, padded with zero bytes so that
    /// its size is a multiple of 16.
    pub fn from_str(ecode: i32, edata: &str) -> (r: Self)
        requires
            edata.spec_bytes().len() + 23 <= i32::MAX,
        ensures
            r@ == from_text_view(ecode, edata.spec_bytes()),
    {
        let text = edata.as_bytes();
        let esize: i32 = 8 + text.len() as i32;
        let padded_esize: i32 = (esize + 15) / 16 * 16;
        let mut data: Vec<u8> = Vec::new();
        let mut i: usize = 0;
        while i < text.len()
            invariant
                i <= text@.len(),
                data@ == text@.subrange(0, i as int),
            decreases text@.len() - i,
        {
            data.push(text[i]);
            i += 1;
        }
        let target: usize = (padded_esize - 8) as usize;
        while data.len() < target
            invariant
                text@.len() <= data@.len() <= target,
                data@.subrange(0, text@.len() as int) == text@,
                forall|j: int| text@.len() <= j < data@.len() ==> data@[j] == 0u8,
            decreases target - data@.len(),
        {
            data.push(0u8);
        }
        let ghost expected = from_text_view(ecode, edata.spec_bytes());
        assert(data@ =~= expected.data);
        Extension::new(padded_esize, ecode, data)
    }

    /// Build a record from a declared size, a code and the payload that was
    /// read for it. The payload must hold exactly as many bytes as the declared
    /// size announces; the stored size is never below 8.
    pub fn from_wire(esize: i32, ecode: i32, edata: Vec<u8>) -> (r: Result<Self, NiftiError>)
        ensures
            r is Ok <==> edata@.len() == spec_payload_len(esize),
            r matches Ok(e) ==> e@ == (ExtensionView { code: ecode, data: edata@ }),
            r is Err ==> r == Err::<Self, NiftiError>(
                NiftiError::IncompatibleLength(edata@.len() as usize, spec_payload_len(esize) as usize),
            ),
    {
        let expected = payload_len(esize);
        if edata.len() != expected {
            return Err(NiftiError::IncompatibleLength(edata.len(), expected));
        }
        let size: i32 = if esize > 8 { esize } else { 8 };
        Ok(Extension::new(size, ecode, edata))
    }

    /// Obtain the extension's size on disk (`esize` field).
    pub fn size(&self) -> (r: i32)
        ensures
            r == self@.size(),
    {
        proof {
            use_type_invariant(self);
        }
        self.esize
    }

    /// Obtain the extension's code (`ecode` field).
    pub fn code(&self) -> (r: i32)
        ensures
            r == self@.code,
    {
        self.ecode
    }

    /// Obtain the extension's data (`edata` field).
    pub fn data(&self) -> (r: &Vec<u8>)
        ensures
            r@ == self@.data,
    {
        &self.edata
    }

    /// Take the extension's raw data, discarding the rest.
    pub fn into_data(self) -> (r: Vec<u8>)
        ensures
            r@ == self@.data,
    {
        self.edata
    }
}

/// The payload length that a declared record size announces: the size less
/// the 8 bytes of the size and code fields, and 0 where the size is below 8.
pub fn payload_len(esize: i32) -> (r: usize)
    ensures
        r == spec_payload_len(esize),
{
    if esize > 8 {
        (esize - 8) as usize
    } else {
        0
    }
}


/// What an attempt to reserve room for an `n`-byte payload leads to: nothing
/// needs reserving for an empty payload; otherwise a refused reservation is
/// the error `ReserveExtended(n)`.
pub fn reservation_outcome(n: usize, granted: bool) -> (r: Result<(), NiftiError>)
    ensures
        r is Ok <==> (n == 0 || granted),
        r is Err ==> r == Err::<(), NiftiError>(NiftiError::ReserveExtended(n)),
{
    if n == 0 || granted {
        Ok(())
    } else {
        Err(NiftiError::ReserveExtended(n))
    }
}

/// What an extension sequence holds: the extender's bytes and the records in
/// file order.
pub ghost struct SequenceView {
    pub extender: Seq<u8>,
    pub records: Seq<ExtensionView>,
}

/// Data type for aggregating the extender code and all extensions.
#[derive(Debug, PartialEq)]
pub struct ExtensionSequence {
    extender: Extender,
    extensions: Vec<Extension>,
}

/// The views of a list of extensions.
pub open spec fn views_of(extensions: Seq<Extension>) -> Seq<ExtensionView> {
    extensions.map_values(|e: Extension| e@)
}

impl View for ExtensionSequence {
    type V = SequenceView;

    closed spec fn view(&self) -> SequenceView {
        SequenceView { extender: self.extender@, records: views_of(self.extensions@) }
    }
}

/// Adding a record adds its size to the total.
pub proof fn lemma_total_size_push(records: Seq<ExtensionView>, r: ExtensionView)
    ensures
        total_size(records.push(r)) == total_size(records) + r.size(),
{
    assert(records.push(r).drop_last() =~= records);
}

impl ExtensionSequence {
    /// Build a sequence directly from its parts.
    pub fn new(extender: Extender, extensions: Vec<Extension>) -> (r: Self)
        ensures
            r@ == (SequenceView { extender: extender@, records: views_of(extensions@) }),
    {
        ExtensionSequence { extender, extensions }
    }

    /// Obtain an iterator to the extensions.
    pub fn iter(&self) -> (r: std::slice::Iter<'_, Extension>)
        ensures
            views_of(into_iter_elts(r)) == self@.records,
    {
        let r = self.extensions.as_slice().iter();
        assert(into_iter_elts(r) =~= self.extensions@);
        r
    }

    /// Whether the sequence of extensions is empty.
    pub fn is_empty(&self) -> (r: bool)
        ensures
            r == (self@.records.len() == 0),
    {
        self.extensions.len() == 0
    }

    /// Obtain the number of extensions available.
    pub fn len(&self) -> (r: usize)
        ensures
            r == self@.records.len(),
    {
        self.extensions.len()
    }

    /// Return the number of bytes the extensions take on disk.
    pub fn bytes_on_disk(&self) -> (r: usize)
        requires
            total_size(self@.records) <= usize::MAX,
        ensures
            r == total_size(self@.records),
    {
        let ghost records = self@.records;
        let mut sum: usize = 0;
        let mut i: usize = 0;
        while i < self.extensions.len()
            invariant
                records == views_of(self.extensions@),
                total_size(records) <= usize::MAX,
                i <= self.extensions@.len(),
                sum == total_size(records.subrange(0, i as int)),
            decreases self.extensions@.len() - i,
        {
            proof {
                lemma_total_size_push(records.subrange(0, i as int), records[i as int]);
                assert(records.subrange(0, i as int).push(records[i as int])
                    =~= records.subrange(0, i + 1));
                lemma_total_size_prefix(records, i + 1);
            }
            sum = sum + self.extensions[i].size() as usize;
            i += 1;
        }
        assert(records.subrange(0, i as int) =~= records);
        sum
    }

    /// Get the extender code from this extension sequence.
    pub fn extender(&self) -> (r: Extender)
        ensures
            r@ == self@.extender,
    {
        self.extender
    }

    /// Take the extensions, discarding the extender.
    pub fn into_extensions(self) -> (r: Vec<Extension>)
        ensures
            views_of(r@) == self@.records,
    {
        self.extensions
    }
}

impl Clone for ExtensionSequence {
    fn clone(&self) -> (r: Self)
        ensures
            r@ == self@,
    {
        let mut extensions: Vec<Extension> = Vec::new();
        let mut i: usize = 0;
        while i < self.extensions.len()
            invariant
                i <= self.extensions@.len(),
                views_of(extensions@) == views_of(self.extensions@).subrange(0, i as int),
            decreases self.extensions@.len() - i,
        {
            let e = Extension::clone(&self.extensions[i]);
            assert(e@ == views_of(self.extensions@)[i as int]);
            let ghost before = extensions@;
            extensions.push(e);
            assert(views_of(extensions@) =~= views_of(before).push(e@));
            i += 1;
            assert(views_of(extensions@) =~= views_of(self.extensions@).subrange(0, i as int));
        }
        assert(views_of(self.extensions@).subrange(0, i as int) =~= views_of(self.extensions@));
        ExtensionSequence { extender: self.extender, extensions }
    }
}

impl IntoIterator for ExtensionSequence {
    type Item = Extension;
    type IntoIter = std::vec::IntoIter<Extension>;

    fn into_iter(self) -> (r: Self::IntoIter)
        ensures
            views_of(vstd::std_specs::vec::into_iter_elts(r)) == self@.records,
    {
        let r = self.extensions.into_iter();
        assert(vstd::std_specs::vec::into_iter_elts(r) =~= self.extensions@);
        r
    }
}

impl<'a> IntoIterator for &'a ExtensionSequence {
    type Item = &'a Extension;
    type IntoIter = std::slice::Iter<'a, Extension>;

    fn into_iter(self) -> (r: Self::IntoIter)
        ensures
            views_of(into_iter_elts(r)) == self@.records,
    {
        self.iter()
    }
}

/// The total of a prefix never exceeds the total of the whole.
pub proof fn lemma_total_size_prefix(records: Seq<ExtensionView>, n: int)
    requires
        0 <= n <= records.len(),
    ensures
        0 <= total_size(records.subrange(0, n)) <= total_size(records),
    decreases records.len(),
{
    if records.len() > 0 {
        if n == records.len() {
            assert(records.subrange(0, n) =~= records);
            lemma_total_size_prefix(records.drop_last(), records.len() - 1);
        } else {
            assert(records.drop_last().subrange(0, n) =~= records.subrange(0, n));
            lemma_total_size_prefix(records.drop_last(), n);
        }
    }
}


/// A total capped at the largest `usize`.
pub open spec fn capped(n: int) -> int {
    if n > usize::MAX {
        usize::MAX as int
    } else {
        n
    }
}

/// Record sizes are never negative, so neither is their total.
pub proof fn lemma_total_size_nonneg(records: Seq<ExtensionView>)
    ensures
        total_size(records) >= 0,
    decreases records.len(),
{
    if records.len() > 0 {
        lemma_total_size_nonneg(records.drop_last());
    }
}

/// What a sequence decoder has gathered so far.
pub ghost struct DecoderView {
    pub extender: Seq<u8>,
    pub len: nat,
    pub records: Seq<ExtensionView>,
}

/// Accumulates the records of an extension sequence, one at a time, until
/// `len` bytes of records have been taken in. The caller fetches each record's
/// size, code and payload from wherever the sequence is stored.
///
/// The running offset advances by each record's stored size, which is never
/// below the 8 bytes of its size and code fields: a declared size below 8
/// cannot make the offset fall behind the bytes actually read.
pub struct SequenceDecoder {
    extender: Extender,
    len: usize,
    offset: usize,
    extensions: Vec<Extension>,
}

impl View for SequenceDecoder {
    type V = DecoderView;

    closed spec fn view(&self) -> DecoderView {
        DecoderView {
            extender: self.extender@,
            len: self.len as nat,
            records: views_of(self.extensions@),
        }
    }
}

impl SequenceDecoder {
    /// The running offset is the records' total size, capped at the
    /// largest `usize`.
    pub closed spec fn wf(&self) -> bool {
        self.offset == capped(total_size(views_of(self.extensions@)))
    }

    /// Start decoding a sequence of `len` bytes announced by `extender`.
    pub fn new(extender: Extender, len: usize) -> (r: Self)
        ensures
            r@ == (DecoderView { extender: extender@, len: len as nat, records: Seq::empty() }),
            r.wf(),
    {
        let extensions: Vec<Extension> = Vec::new();
        assert(views_of(extensions@) =~= Seq::<ExtensionView>::empty());
        SequenceDecoder { extender, len, offset: 0, extensions }
    }

    /// Whether another record is to be read: the extender announces
    /// extensions and the records so far take fewer than `len` bytes.
    pub fn needs_record(&self) -> (r: bool)
        requires
            self.wf(),
        ensures
            r == (announces_extensions(self@.extender) && total_size(self@.records) < self@.len),
    {
        proof {
            lemma_total_size_nonneg(self@.records);
        }
        self.extender.has_extensions() && self.offset < self.len
    }

    /// Take in one record: its declared size, its code, and the payload that
    /// was read for it, which must hold exactly the announced number of bytes.
    pub fn accept(&mut self, esize: i32, ecode: i32, edata: Vec<u8>) -> (r: Result<(), NiftiError>)
        requires
            old(self).wf(),
        ensures
            final(self).wf(),
            r is Ok <==> edata@.len() == spec_payload_len(esize),
            r is Ok ==> final(self)@ == (DecoderView {
                extender: old(self)@.extender,
                len: old(self)@.len,
                records: old(self)@.records.push(ExtensionView { code: ecode, data: edata@ }),
            }),
            r is Err ==> final(self)@ == old(self)@,
            r is Err ==> r == Err::<(), NiftiError>(
                NiftiError::IncompatibleLength(edata@.len() as usize, spec_payload_len(esize) as usize),
            ),
    {
        let e = match Extension::from_wire(esize, ecode, edata) {
            Ok(e) => e,
            Err(err) => return Err(err),
        };
        let ghost before = views_of(self.extensions@);
        let size = e.size() as usize;
        proof {
            lemma_total_size_nonneg(before);
            lemma_total_size_push(before, e@);
        }
        let offset = self.offset.saturating_add(size);
        self.extensions.push(e);
        self.offset = offset;
        assert(views_of(self.extensions@) =~= before.push(e@));
        Ok(())
    }

    /// The sequence gathered so far.
    pub fn finish(self) -> (r: ExtensionSequence)
        ensures
            r@ == (SequenceView { extender: self@.extender, records: self@.records }),
    {
        ExtensionSequence::new(self.extender, self.extensions)
    }
}


/// Decoding the records that start at `pos` in `bytes`, while fewer than
/// `len` bytes of records have been read: the records and the offset reached.
pub open spec fn decode_from(bytes: Seq<u8>, order: ByteOrder, pos: int, len: int) -> Result<
    (Seq<ExtensionView>, int),
    NiftiError,
>
    decreases bytes.len() - pos,
{
    if pos >= len {
        Ok((Seq::empty(), pos))
    } else if bytes.len() - pos < 8 {
        Err(NiftiError::UnexpectedEof)
    } else {
        let n = spec_payload_len(i32_at(bytes, pos, order));
        let avail = bytes.len() - pos - 8;
        if avail < n {
            Err(NiftiError::IncompatibleLength(avail as usize, n as usize))
        } else {
            let record = ExtensionView {
                code: i32_at(bytes, pos + 4, order),
                data: bytes.subrange(pos + 8, pos + 8 + n),
            };
            prepend(seq![record], decode_from(bytes, order, pos + 8 + n, len))
        }
    }
}

/// Records read earlier, put in front of the outcome of reading the rest.
pub open spec fn prepend(
    earlier: Seq<ExtensionView>,
    rest: Result<(Seq<ExtensionView>, int), NiftiError>,
) -> Result<(Seq<ExtensionView>, int), NiftiError> {
    match rest {
        Ok((records, end)) => Ok((earlier + records, end)),
        Err(e) => Err(e),
    }
}

/// The records of the sequence that `extender` announces, stored in `bytes`
/// and taking at least `len` bytes; empty when nothing is announced.
pub open spec fn decode_spec(extender: Seq<u8>, bytes: Seq<u8>, order: ByteOrder, len: int) -> Result<
    Seq<ExtensionView>,
    NiftiError,
> {
    if !announces_extensions(extender) {
        Ok(Seq::empty())
    } else {
        match decode_from(bytes, order, 0, len) {
            Ok((records, _)) => Ok(records),
            Err(e) => Err(e),
        }
    }
}

/// Whether decoding from `pos` reaches a record header announcing a payload of
/// `n` bytes, that is, a point where room for `n` bytes is reserved.
pub open spec fn reserve_reached(bytes: Seq<u8>, order: ByteOrder, pos: int, len: int, n: int) -> bool
    decreases bytes.len() - pos,
{
    if pos >= len || bytes.len() - pos < 8 {
        false
    } else {
        let m = spec_payload_len(i32_at(bytes, pos, order));
        m == n || (bytes.len() - pos - 8 >= m && reserve_reached(bytes, order, pos + 8 + m, len, n))
    }
}

impl ExtensionSequence {
    /// Read a sequence of extensions from `bytes`, the contents that follow
    /// the extender, up until `len` bytes of records have been read. Nothing
    /// is read when the extender announces no extensions.
    ///
    /// The outcome is the one `decode_spec` gives, except that reserving room
    /// for a payload may fail, with the payload length that was asked for.
    pub fn from_bytes(extender: Extender, bytes: &[u8], order: ByteOrder, len: usize) -> (r: Result<
        Self,
        NiftiError,
    >)
        ensures
            r matches Ok(s) ==> s@.extender == extender@ && decode_spec(
                extender@,
                bytes@,
                order,
                len as int,
            ) == Ok::<Seq<ExtensionView>, NiftiError>(s@.records),
            r matches Err(e) ==> e is ReserveExtended || decode_spec(extender@, bytes@, order, len as int)
                == Err::<Seq<ExtensionView>, NiftiError>(e),
            r matches Err(NiftiError::ReserveExtended(n)) ==> n > 0 && announces_extensions(extender@)
                && reserve_reached(bytes@, order, 0, len as int, n as int),
    {
        let mut decoder = SequenceDecoder::new(extender, len);
        let mut pos: usize = 0;
        let stored: usize = bytes.len();
        proof {
            assert(prepend(Seq::empty(), decode_from(bytes@, order, 0, len as int)) == decode_from(
                bytes@,
                order,
                0,
                len as int,
            )) by {
                if let Ok((records, end)) = decode_from(bytes@, order, 0, len as int) {
                    assert(Seq::<ExtensionView>::empty() + records =~= records);
                }
            }
        }
        while decoder.needs_record()
            invariant
                decoder.wf(),
                decoder@.extender == extender@,
                decoder@.len == len,
                pos <= bytes@.len(),
                stored == bytes@.len(),
                total_size(decoder@.records) == pos,
                announces_extensions(extender@) ==> decode_from(bytes@, order, 0, len as int)
                    == prepend(decoder@.records, decode_from(bytes@, order, pos as int, len as int)),
                !announces_extensions(extender@) ==> decoder@.records.len() == 0,
                forall|n: int|
                    #[trigger] reserve_reached(bytes@, order, pos as int, len as int, n)
                        ==> reserve_reached(bytes@, order, 0, len as int, n),
            decreases bytes@.len() - pos,
        {
            let esize = match read_i32_at(bytes, pos, order) {
                Some(v) => v,
                None => return Err(NiftiError::UnexpectedEof),
            };
            let ecode = match read_i32_at(bytes, pos + 4, order) {
                Some(v) => v,
                None => return Err(NiftiError::UnexpectedEof),
            };
            let n = payload_len(esize);
            let mut edata: Vec<u8> = Vec::new();
            let granted = n == 0 || reserve_exact(&mut edata, n).is_ok();
            if let Err(e) = reservation_outcome(n, granted) {
                assert(reserve_reached(bytes@, order, pos as int, len as int, n as int));
                return Err(e);
            }
            let start = pos + 8;
            let avail = bytes.len() - start;
            let available = if avail < n {
                avail
            } else {
                n
            };
            let mut i: usize = 0;
            while i < available
                invariant
                    start + available <= bytes@.len(),
                    stored == bytes@.len(),
                    i <= available,
                    edata@ == bytes@.subrange(start as int, start + i),
                decreases available - i,
            {
                edata.push(bytes[start + i]);
                i += 1;
                assert(edata@ =~= bytes@.subrange(start as int, start + i));
            }
            let ghost record = ExtensionView { code: ecode, data: edata@ };
            let ghost before = decoder@.records;
            match decoder.accept(esize, ecode, edata) {
                Ok(()) => {},
                Err(e) => return Err(e),
            }
            proof {
                lemma_total_size_push(before, record);
                let rest = decode_from(bytes@, order, (start + n) as int, len as int);
                assert(prepend(before, prepend(seq![record], rest)) == prepend(before.push(record), rest))
                    by {
                    if let Ok((records, end)) = rest {
                        assert(before + (seq![record] + records) =~= before.push(record) + records);
                    }
                }
                assert forall|k: int|
                    #[trigger] reserve_reached(bytes@, order, (start + n) as int, len as int, k)
                        implies reserve_reached(bytes@, order, 0, len as int, k) by {
                    assert(reserve_reached(bytes@, order, pos as int, len as int, k));
                }
            }
            pos = start + n;
        }
        proof {
            if announces_extensions(extender@) {
                assert(decoder@.records + Seq::<ExtensionView>::empty() =~= decoder@.records);
            } else {
                assert(decoder@.records =~= Seq::<ExtensionView>::empty());
            }
        }
        Ok(decoder.finish())
    }
}

} // verus!
