//! What is read out of a JSON-RPC frame.

use vstd::prelude::*;
use vstd::utf8::*;
use crate::contract::{CallView, EnvelopeView};
use crate::framing::{
    by_name, fields_in, lemma_number_reads_back, lemma_quoted_reads_back, low16, needs_no_escape, null_text, placed,
    quoted, raw_items, raw_members, repeats, request_fields, request_in, request_of_frame, response_in,
    signed_number, unquoted, whole_number,
};
use crate::text::{decimal_bytes, lemma_text_is_whole};

verus! {

// ── numbers and texts ───────────────────────────────────────────────────

/// A number on either side of zero is read as what it writes, as far as an `i64` goes.
pub proof fn law_numbers_are_read_on_both_sides_of_zero(n: u64)
    ensures
        whole_number(decimal_bytes(n as nat)) == Some(n as nat),
        n <= i64::MAX ==> signed_number(decimal_bytes(n as nat)) == Some(n as int),
        n > i64::MAX ==> signed_number(decimal_bytes(n as nat)) is None,
        0 < n <= 0x8000_0000_0000_0000 ==> signed_number(seq![0x2du8] + decimal_bytes(n as nat)) == Some(-(n as int)),
        n == 0 || n > 0x8000_0000_0000_0000 ==> signed_number(seq![0x2du8] + decimal_bytes(n as nat)) is None,
{
    lemma_number_reads_back(n);
    crate::text::lemma_decimal_bytes(n as nat);
    let minus = seq![0x2du8] + decimal_bytes(n as nat);
    assert(minus.skip(1) =~= decimal_bytes(n as nat));
    assert(minus[0] == 0x2d);
}

/// Of a code the low 16 bits count: a small one stands for itself, and one below zero
/// for what it lacks to 2^16.
pub proof fn law_which_bits_of_a_code_count(code: int)
    ensures
        0 <= code < 0x1_0000 ==> low16(code) == code,
        -0x1_0000 <= code < 0 ==> low16(code) == code + 0x1_0000,
        low16(code + 0x1_0000) == low16(code),
{
}

/// A text in quotes is read as that text; one with a backslash in it, or without its
/// quotes, is not read.
pub proof fn law_texts_are_read_out_of_their_quotes(s: Seq<char>, raw: Seq<u8>)
    ensures
        needs_no_escape(s) ==> unquoted(quoted(s)) == Some(s),
        raw.len() < 2 || raw[0] != 0x22 || raw.last() != 0x22 ==> unquoted(raw) is None,
        raw.len() >= 2 && raw.subrange(1, raw.len() - 1).contains(0x5cu8) ==> unquoted(raw) is None,
{
    if needs_no_escape(s) {
        lemma_quoted_reads_back(s);
    }
}

// ── requests ────────────────────────────────────────────────────────────

/// A request has the method and the id that its members write, and the text of its
/// params as it stands.
pub proof fn law_a_request_is_its_members(m: Map<Seq<char>, Seq<u8>>, method: Seq<char>, id: u64)
    requires
        needs_no_escape(method),
        m.contains_key("method"@),
        m["method"@] == quoted(method),
        m.contains_key("id"@),
        m["id"@] == decimal_bytes(id as nat),
    ensures
        request_in(m) is Some,
        request_in(m)->0.call == CallView::Name(method),
        request_in(m)->0.request_id == id,
        m.contains_key("params"@) ==> request_in(m)->0.params == m["params"@],
        !m.contains_key("params"@) ==> request_in(m)->0.params == seq![0x6eu8, 0x75, 0x6c, 0x6c],
{
    lemma_quoted_reads_back(method);
    lemma_number_reads_back(id);
    crate::text::lemma_decimal_bytes(id as nat);
    assert(null_text() == seq![0x6eu8, 0x75, 0x6c, 0x6c]);
    assert(null_text()[0] == 0x6e);
}

/// A request without an id, or with `null` for one, has the id 0. One without a method
/// is no request.
pub proof fn law_what_a_request_may_leave_out(m: Map<Seq<char>, Seq<u8>>, method: Seq<char>)
    ensures
        !m.contains_key("method"@) ==> request_in(m) is None,
        needs_no_escape(method) && m.contains_key("method"@) && m["method"@] == quoted(method) && (!m.contains_key(
            "id"@,
        ) || m["id"@] == seq![0x6eu8, 0x75, 0x6c, 0x6c]) ==> request_in(m) is Some && request_in(m)->0.call
            == CallView::Name(method) && request_in(m)->0.request_id == 0,
{
    if needs_no_escape(method) {
        lemma_quoted_reads_back(method);
    }
    assert(null_text() == seq![0x6eu8, 0x75, 0x6c, 0x6c]);
}

/// Of a frame that is text, an object is read by its names, none of which may stand
/// twice, and an array by its places: the method, the params, the id.
pub proof fn law_a_request_is_read_by_name_or_by_place(frame: Seq<u8>)
    requires
        valid_utf8(frame),
    ensures
        raw_members(frame) matches Some(m) ==> request_of_frame(frame) == (if repeats(frame, request_fields()) {
            None
        } else {
            request_in(m)
        }),
        raw_members(frame) is None && raw_items(frame) is None ==> request_of_frame(frame) is None,
        raw_members(frame) is None && (raw_items(frame) matches Some(items) && items.len() > 3) ==> request_of_frame(
            frame,
        ) is None,
        raw_members(frame) is None && (raw_items(frame) matches Some(items) && items.len() == 3) ==> request_of_frame(
            frame,
        ) == request_in(
            Map::empty().insert("method"@, raw_items(frame)->0[0]).insert("params"@, raw_items(frame)->0[1]).insert(
                "id"@,
                raw_items(frame)->0[2],
            ),
        ),
{
    lemma_text_is_whole(frame, 0x3f);
    lemma_text_is_whole(frame, 0x21);
    if raw_members(frame) is None {
        if let Some(items) = raw_items(frame) {
            if items.len() == 3 {
                let all = placed(request_fields(), items);
                reveal_with_fuel(by_name, 4);
                assert(all.drop_last().drop_last().drop_last() =~= Seq::empty());
                assert(all[2] == ("id"@, items[2]));
                assert(all.drop_last()[1] == ("params"@, items[1]));
                assert(all.drop_last().drop_last()[0] == ("method"@, items[0]));
                assert(fields_in(frame, request_fields()) == Some(by_name(all)));
            }
        }
    }
}

// ── responses ───────────────────────────────────────────────────────────

/// A response without an error is its result, under its id; one with an error is that
/// error: the low 16 bits of its code, and its data.
pub proof fn law_a_response_is_its_members(
    m: Map<Seq<char>, Seq<u8>>,
    e: Map<Seq<char>, Seq<u8>>,
    id: u64,
    code: u16,
)
    requires
        m.contains_key("id"@),
        m["id"@] == decimal_bytes(id as nat),
        e.contains_key("code"@),
        e["code"@] == decimal_bytes(code as nat),
    ensures
        response_in(m, None) == Some(
            (
                id,
                EnvelopeView::Success(
                    if m.contains_key("result"@) {
                        m["result"@]
                    } else {
                        seq![0x6eu8, 0x75, 0x6c, 0x6c]
                    },
                ),
            ),
        ),
        response_in(m, Some(e)) == Some(
            (
                id,
                EnvelopeView::Failure {
                    id: code,
                    body: if e.contains_key("data"@) {
                        e["data"@]
                    } else {
                        seq![0x6eu8, 0x75, 0x6c, 0x6c]
                    },
                },
            ),
        ),
{
    lemma_number_reads_back(id);
    law_numbers_are_read_on_both_sides_of_zero(code as u64);
    assert(null_text() == seq![0x6eu8, 0x75, 0x6c, 0x6c]);
}

/// What has no id is no response, and an error without a code is none.
pub proof fn law_what_a_response_may_not_leave_out(m: Map<Seq<char>, Seq<u8>>, e: Map<Seq<char>, Seq<u8>>)
    ensures
        !m.contains_key("id"@) ==> response_in(m, None) is None && response_in(m, Some(e)) is None,
        !e.contains_key("code"@) ==> response_in(m, Some(e)) is None,
{
}

} // verus!
