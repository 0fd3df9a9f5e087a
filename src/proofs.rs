//! Facts about decoding and building extensions that hold for every input.

use crate::extension::{
    announces_extensions, decode_from, decode_spec, from_text_view, padded_size, prepend,
    spec_payload_len, total_size, ExtensionView, NiftiError,
};
use crate::wire::{i32_at, ByteOrder};
use vstd::arithmetic::div_mod::{lemma_fundamental_div_mod, lemma_mod_multiples_basic};
use vstd::prelude::*;

verus! {

/// A sequence of bytes with its trailing zero bytes removed.
pub open spec fn strip_trailing_zeros(s: Seq<u8>) -> Seq<u8>
    decreases s.len(),
{
    if s.len() > 0 && s.last() == 0 {
        strip_trailing_zeros(s.drop_last())
    } else {
        s
    }
}

/// A record put in front of others adds its size to their total.
pub proof fn lemma_total_size_prepend(r: ExtensionView, rest: Seq<ExtensionView>)
    ensures
        total_size(seq![r] + rest) == r.size() + total_size(rest),
    decreases rest.len(),
{
    if rest.len() > 0 {
        assert((seq![r] + rest).drop_last() =~= seq![r] + rest.drop_last());
        assert((seq![r] + rest).last() == rest.last());
        lemma_total_size_prepend(r, rest.drop_last());
    } else {
        assert(seq![r] + rest =~= seq![r]);
        assert(seq![r].drop_last() =~= Seq::<ExtensionView>::empty());
        assert(total_size(Seq::<ExtensionView>::empty()) == 0);
        assert(total_size(rest) == 0);
    }
}

/// Decoding from `pos` reads records back to back: when it succeeds, the
/// offset reached is `pos` plus the sum of the record sizes, it is at least
/// `len`, and every record but the last starts before `len`.
pub proof fn lemma_decode_from_offset(bytes: Seq<u8>, order: ByteOrder, pos: int, len: int)
    requires
        0 <= pos,
        decode_from(bytes, order, pos, len) is Ok,
    ensures
        decode_from(bytes, order, pos, len) matches Ok((records, end)) && end == pos + total_size(
            records,
        ) && end >= len && (records.len() > 0 ==> end - records.last().size() < len),
    decreases bytes.len() - pos,
{
    if pos >= len {
        assert(total_size(Seq::<ExtensionView>::empty()) == 0);
    } else {
        let n = spec_payload_len(i32_at(bytes, pos, order));
        let record = ExtensionView {
            code: i32_at(bytes, pos + 4, order),
            data: bytes.subrange(pos + 8, pos + 8 + n),
        };
        let next = pos + 8 + n;
        assert(record.size() == 8 + n);
        lemma_decode_from_offset(bytes, order, next, len);
        let (rest, end) = decode_from(bytes, order, next, len)->Ok_0;
        lemma_total_size_prepend(record, rest);
        assert(prepend(seq![record], decode_from(bytes, order, next, len)) == Ok::<
            (Seq<ExtensionView>, int),
            NiftiError,
        >((seq![record] + rest, end)));
        if rest.len() == 0 {
            assert(total_size(rest) == 0);
        } else {
            assert((seq![record] + rest).last() == rest.last());
        }
    }
}

/// Σ of the record sizes over a decoded sequence equals the offset that
/// decoding reached, which is at least `len`; every record but the last
/// starts before `len`.
pub proof fn lemma_sizes_sum_to_offset(bytes: Seq<u8>, order: ByteOrder, len: int)
    requires
        decode_from(bytes, order, 0, len) is Ok,
    ensures
        decode_from(bytes, order, 0, len) matches Ok((records, end)) && end == total_size(records)
            && end >= len && (records.len() > 0 ==> end - records.last().size() < len),
{
    lemma_decode_from_offset(bytes, order, 0, len);
}

/// Whether `bytes`, from `pos` on, holds well-formed records back to back
/// whose sizes add up to exactly `len - pos`: each declares a size of at least
/// 8 and its payload is complete.
pub open spec fn holds_valid_records(bytes: Seq<u8>, order: ByteOrder, pos: int, len: int) -> bool
    decreases bytes.len() - pos,
{
    if pos == len {
        true
    } else if pos > len || bytes.len() - pos < 8 {
        false
    } else {
        let esize = i32_at(bytes, pos, order);
        esize >= 8 && bytes.len() - pos >= esize && holds_valid_records(bytes, order, pos + esize, len)
    }
}

/// Decoding well-formed records that exactly fill `len - pos` bytes succeeds,
/// reaches exactly `len`, and the sizes of the records add up to `len - pos`.
pub proof fn lemma_valid_records_decode(bytes: Seq<u8>, order: ByteOrder, pos: int, len: int)
    requires
        0 <= pos,
        holds_valid_records(bytes, order, pos, len),
    ensures
        decode_from(bytes, order, pos, len) matches Ok((records, end)) && end == len && pos
            + total_size(records) == len,
    decreases bytes.len() - pos,
{
    if pos < len {
        let esize = i32_at(bytes, pos, order);
        lemma_valid_records_decode(bytes, order, pos + esize, len);
    }
    lemma_decode_from_offset(bytes, order, pos, len);
}

/// On a stream of well-formed records that exactly fill `len` bytes, the
/// decoded sequence succeeds and its sizes sum to `len`: the offset reached
/// never passes `len`.
pub proof fn lemma_valid_stream_fills_len(
    extender: Seq<u8>,
    bytes: Seq<u8>,
    order: ByteOrder,
    len: int,
)
    requires
        announces_extensions(extender),
        holds_valid_records(bytes, order, 0, len),
    ensures
        decode_spec(extender, bytes, order, len) matches Ok(records) && total_size(records) == len,
{
    lemma_valid_records_decode(bytes, order, 0, len);
}

/// When the extender's first byte is 0, the decoded sequence is empty,
/// whatever `len` and the stored bytes are.
pub proof fn lemma_no_extensions_decode_empty(
    extender: Seq<u8>,
    bytes: Seq<u8>,
    order: ByteOrder,
    len: int,
)
    requires
        extender.len() == 4,
        extender[0] == 0,
    ensures
        !announces_extensions(extender),
        decode_spec(extender, bytes, order, len) == Ok::<Seq<ExtensionView>, NiftiError>(
            Seq::empty(),
        ),
{
}

/// Stripping trailing zeros from a text followed by zeros gives the text back,
/// when the text itself does not end in a zero byte.
pub proof fn lemma_strip_padding(text: Seq<u8>, k: nat)
    requires
        text.len() == 0 || text.last() != 0,
    ensures
        strip_trailing_zeros(text + Seq::new(k, |i: int| 0u8)) == text,
    decreases k,
{
    let padded = text + Seq::new(k, |i: int| 0u8);
    if k == 0 {
        assert(padded =~= text);
    } else {
        assert(padded.drop_last() =~= text + Seq::new((k - 1) as nat, |i: int| 0u8));
        lemma_strip_padding(text, (k - 1) as nat);
    }
}

/// A record built from a text keeps the text: its payload, with trailing zero
/// padding stripped, is the text's bytes (when they do not end in a zero
/// byte); its size is a multiple of 16 and at least `8` plus the text's length.
pub proof fn lemma_from_text_round_trip(code: i32, text: Seq<u8>)
    requires
        text.len() + 23 <= i32::MAX,
    ensures
        from_text_view(code, text).size() % 16 == 0,
        from_text_view(code, text).size() >= 8 + text.len(),
        from_text_view(code, text).size() < 8 + text.len() + 16,
        from_text_view(code, text).data.subrange(0, text.len() as int) == text,
        text.len() == 0 || text.last() != 0 ==> strip_trailing_zeros(
            from_text_view(code, text).data,
        ) == text,
{
    let x: int = 8 + text.len() as int + 15;
    lemma_fundamental_div_mod(x, 16);
    lemma_mod_multiples_basic(x / 16, 16);
    let k = (padded_size(text.len() as int) - 8 - text.len()) as nat;
    let data = from_text_view(code, text).data;
    assert(data.subrange(0, text.len() as int) =~= text);
    if text.len() == 0 || text.last() != 0 {
        lemma_strip_padding(text, k);
    }
}

} // verus!
