//! The shared wire shape of a message: start line, CR LF-separated header
//! lines, a blank line, then the body.  This module defines how a header
//! list renders to bytes, which field values are safe on the wire, and the
//! lemmas that make a serialized message parse back to what was rendered.
use crate::header_map::{
    distinct_keys, hm_find, hm_insert, hm_lines, lemma_hm_find_props, lemma_hm_insert_distinct,
    SpecPair,
};
use crate::wire::{
    all_ascii, boundary_at, crlf_free, find2, find_boundary, is_ws, lemma_find2_eq,
    lemma_find2_is_none, lemma_find_boundary_eq, pair_at, trim, COLON, CR, LF, SP,
};
use vstd::prelude::*;
use vstd::utf8::{
    is_leading_byte_width_1, partial_valid_utf8, partial_valid_utf8_extend_ascii_block, valid_utf8,
};

verus! {

/// A header entry as one wire line: `name: value`.
pub open spec fn header_line(p: SpecPair) -> Seq<u8> {
    p.0 + seq![COLON, SP] + p.1
}

/// The header lines as emitted after the start line: each entry is
/// preceded by CR LF.
pub open spec fn render_lines(pairs: Seq<SpecPair>) -> Seq<u8>
    decreases pairs.len(),
{
    if pairs.len() == 0 {
        Seq::empty()
    } else {
        seq![CR, LF] + header_line(pairs[0]) + render_lines(pairs.drop_first())
    }
}

/// The header block as the parser sees it: the bytes between the first
/// CR LF and the blank line.
pub open spec fn block_of(pairs: Seq<SpecPair>) -> Seq<u8> {
    if pairs.len() == 0 {
        Seq::empty()
    } else {
        header_line(pairs[0]) + render_lines(pairs.drop_first())
    }
}

/// A whole message: start line, header lines, the blank-line boundary,
/// then the body.
pub open spec fn message_bytes(start: Seq<u8>, pairs: Seq<SpecPair>, body: Seq<u8>) -> Seq<u8> {
    start + render_lines(pairs) + seq![CR, LF, CR, LF] + body
}

/// A header name that survives a round trip over the wire: nonempty ASCII
/// with no CR, LF or colon, not opening with whitespace.
pub open spec fn name_ok(n: Seq<u8>) -> bool {
    n.len() > 0 && !is_ws(n[0]) && forall|i: int|
        0 <= i < n.len() ==> (#[trigger] n[i]) != CR && n[i] != LF && n[i] != COLON && n[i] < 128
}

/// A header value that survives a round trip over the wire: nonempty ASCII
/// with no CR or LF, not ending in whitespace.
pub open spec fn value_ok(v: Seq<u8>) -> bool {
    v.len() > 0 && !is_ws(v.last()) && forall|i: int|
        0 <= i < v.len() ==> (#[trigger] v[i]) != CR && v[i] != LF && v[i] < 128
}

/// A header list whose every entry survives a round trip, with unique keys.
pub open spec fn pairs_wire_ok(pairs: Seq<SpecPair>) -> bool {
    distinct_keys(pairs) && forall|i: int|
        0 <= i < pairs.len() ==> name_ok((#[trigger] pairs[i]).0) && value_ok(pairs[i].1)
}

/// Every CR of `r` heads a line separator: an LF follows it, and after
/// that the first byte of a nonempty line, which is neither CR nor LF.
pub open spec fn cr_ok(r: Seq<u8>) -> bool {
    forall|j: int|
        0 <= j < r.len() && (#[trigger] r[j]) == CR ==> j + 2 < r.len() && r[j + 1] == LF && r[j
            + 2] != CR && r[j + 2] != LF
}

/// A sequence without CR trivially satisfies `cr_ok`.
pub proof fn lemma_crlf_free_cr_ok(r: Seq<u8>)
    requires
        crlf_free(r),
    ensures
        cr_ok(r),
{
}

/// Appending a line separator and a nonempty CR/LF-free line preserves
/// `cr_ok`.
pub proof fn lemma_cr_ok_append(r: Seq<u8>, line: Seq<u8>)
    requires
        cr_ok(r),
        crlf_free(line),
        line.len() > 0,
    ensures
        cr_ok(r + seq![CR, LF] + line),
{
    let x = r + seq![CR, LF] + line;
    assert forall|j: int| 0 <= j < x.len() && (#[trigger] x[j]) == CR implies j + 2 < x.len()
        && x[j + 1] == LF && x[j + 2] != CR && x[j + 2] != LF by {
        if j < r.len() {
            assert(r[j] == CR);
            assert(x[j + 1] == r[j + 1]);
            assert(x[j + 2] == r[j + 2]);
        } else if j == r.len() {
            assert(x[j + 1] == LF);
            assert(x[j + 2] == line[0]);
        } else if j == r.len() + 1 {
            assert(x[j] == LF);
        } else {
            assert(x[j] == line[j - r.len() - 2]);
        }
    }
}

/// The line of a wire-safe entry is nonempty, CR/LF-free and ASCII.
pub proof fn lemma_header_line_clean(p: SpecPair)
    requires
        name_ok(p.0),
        value_ok(p.1),
    ensures
        header_line(p).len() > 2,
        crlf_free(header_line(p)),
        all_ascii(header_line(p)),
{
    let l = header_line(p);
    assert forall|i: int| 0 <= i < l.len() implies (#[trigger] l[i]) != CR && l[i] != LF && l[i]
        < 128 by {
        if i < p.0.len() {
            assert(l[i] == p.0[i]);
        } else if i < p.0.len() + 2 {
            assert(l[i] == COLON || l[i] == SP);
        } else {
            assert(l[i] == p.1[i - p.0.len() - 2]);
        }
    }
}

/// The header region of a message built from wire-safe parts satisfies
/// `cr_ok`.
pub proof fn lemma_region_cr_ok(prefix: Seq<u8>, pairs: Seq<SpecPair>)
    requires
        cr_ok(prefix),
        pairs_wire_ok(pairs),
    ensures
        cr_ok(prefix + render_lines(pairs)),
    decreases pairs.len(),
{
    if pairs.len() == 0 {
        assert(prefix + render_lines(pairs) =~= prefix);
    } else {
        let line = header_line(pairs[0]);
        lemma_header_line_clean(pairs[0]);
        lemma_cr_ok_append(prefix, line);
        let p2 = prefix + seq![CR, LF] + line;
        let rest = pairs.drop_first();
        assert(pairs_wire_ok(rest)) by {
            assert(forall|j: int| 0 <= j < rest.len() ==> #[trigger] rest[j] == pairs[j + 1]);
        }
        lemma_region_cr_ok(p2, rest);
        assert(p2 + render_lines(rest) =~= prefix + render_lines(pairs));
    }
}

/// The header lines of wire-safe entries are ASCII.
pub proof fn lemma_render_lines_ascii(pairs: Seq<SpecPair>)
    requires
        pairs_wire_ok(pairs),
    ensures
        all_ascii(render_lines(pairs)),
    decreases pairs.len(),
{
    if pairs.len() > 0 {
        let line = header_line(pairs[0]);
        lemma_header_line_clean(pairs[0]);
        let rest = pairs.drop_first();
        assert(pairs_wire_ok(rest)) by {
            assert(forall|j: int| 0 <= j < rest.len() ==> #[trigger] rest[j] == pairs[j + 1]);
        }
        lemma_render_lines_ascii(rest);
        let r = render_lines(pairs);
        assert forall|i: int| 0 <= i < r.len() implies (#[trigger] r[i]) < 128 by {
            if i < 2 {
                assert(r[i] == CR || r[i] == LF);
            } else if i < 2 + line.len() {
                assert(r[i] == line[i - 2]);
            } else {
                assert(r[i] == render_lines(rest)[i - 2 - line.len()]);
            }
        }
    }
}

/// The last byte of the rendered header lines is the last byte of the last
/// value.
pub proof fn lemma_render_lines_last(pairs: Seq<SpecPair>)
    requires
        pairs.len() > 0,
        pairs_wire_ok(pairs),
    ensures
        render_lines(pairs).len() > 0,
        render_lines(pairs).last() == pairs.last().1.last(),
    decreases pairs.len(),
{
    let rest = pairs.drop_first();
    assert(pairs_wire_ok(rest)) by {
        assert(forall|j: int| 0 <= j < rest.len() ==> #[trigger] rest[j] == pairs[j + 1]);
    }
    if pairs.len() == 1 {
        let line = header_line(pairs[0]);
        assert(render_lines(pairs) =~= seq![CR, LF] + line);
        assert(render_lines(pairs).last() == line.last());
        assert(line.last() == pairs[0].1.last());
    } else {
        lemma_render_lines_last(rest);
        let r = render_lines(pairs);
        assert(r.last() == render_lines(rest).last());
        assert(rest.last() == pairs.last());
    }
}

/// Any ASCII byte sequence is valid UTF-8.
pub proof fn lemma_ascii_valid_utf8(s: Seq<u8>)
    requires
        all_ascii(s),
    ensures
        valid_utf8(s),
{
    assert(s.subrange(0, 0) =~= Seq::<u8>::empty());
    assert(partial_valid_utf8(s, 0));
    assert(forall|i: int| 0 <= i < s.len() ==> #[trigger] is_leading_byte_width_1(s[i]));
    partial_valid_utf8_extend_ascii_block(s, 0, s.len() as int);
    assert(s.subrange(0, s.len() as int) =~= s);
}

/// In a message whose header region satisfies `cr_ok`, the first CR LF
/// CR LF is exactly the blank line ending the header region.
pub proof fn lemma_message_boundary(start: Seq<u8>, pairs: Seq<SpecPair>, body: Seq<u8>)
    requires
        cr_ok(start + render_lines(pairs)),
    ensures
        find_boundary(message_bytes(start, pairs, body)) == Some(
            start.len() + render_lines(pairs).len() as int,
        ),
{
    let r = start + render_lines(pairs);
    let s = message_bytes(start, pairs, body);
    let b = r.len() as int;
    assert(s =~= r + seq![CR, LF, CR, LF] + body);
    assert(s[b] == CR && s[b + 1] == LF && s[b + 2] == CR && s[b + 3] == LF);
    assert(boundary_at(s, b));
    assert forall|j: int| 0 <= j < b implies !#[trigger] boundary_at(s, j) by {
        if s[j] == CR {
            assert(r[j] == CR);
            assert(j + 2 < b);
            assert(s[j + 2] == r[j + 2]);
            assert(s[j + 2] != CR);
        }
    }
    lemma_find_boundary_eq(s, b);
}

/// No entry of `pairs` is named `k`.
pub open spec fn key_absent(pairs: Seq<SpecPair>, k: Seq<u8>) -> bool {
    forall|j: int| 0 <= j < pairs.len() ==> (#[trigger] pairs[j]).0 != k
}

/// Parsing the rendered block of wire-safe entries recovers exactly those
/// entries, appended to whatever was already accumulated.
pub proof fn lemma_block_parse(pairs: Seq<SpecPair>, acc: Seq<SpecPair>)
    requires
        pairs_wire_ok(pairs),
        distinct_keys(acc),
        forall|i: int| 0 <= i < pairs.len() ==> key_absent(acc, (#[trigger] pairs[i]).0),
    ensures
        hm_lines(block_of(pairs), acc) == Some(acc + pairs),
    decreases pairs.len(),
{
    if pairs.len() == 0 {
        assert(block_of(pairs).len() == 0);
        assert(acc + pairs =~= acc);
    } else {
        let s = block_of(pairs);
        let p0 = pairs[0];
        let name = p0.0;
        let value = p0.1;
        let line0 = header_line(p0);
        let rest = pairs.drop_first();
        assert(pairs_wire_ok(rest) && forall|j: int|
            0 <= j < rest.len() ==> #[trigger] rest[j] == pairs[j + 1]);
        lemma_header_line_clean(p0);
        // The first line ends at the first CR LF (or at the end of the
        // block when it is the only line).
        let line = match find2(s, CR, LF) {
            None => s,
            Some(i) => s.subrange(0, i),
        };
        let rest_s = match find2(s, CR, LF) {
            None => Seq::<u8>::empty(),
            Some(i) => s.subrange(i + 2, s.len() as int),
        };
        if rest.len() == 0 {
            assert(s =~= line0);
            assert(forall|j: int|
                0 <= j && j + 2 <= s.len() ==> !#[trigger] pair_at(s, CR, LF, j));
            lemma_find2_is_none(s, CR, LF);
            assert(line == line0);
            assert(rest_s =~= block_of(rest));
        } else {
            assert(s =~= line0 + (seq![CR, LF] + block_of(rest))) by {
                assert(render_lines(rest) =~= seq![CR, LF] + block_of(rest));
            }
            assert(pair_at(s, CR, LF, line0.len() as int)) by {
                assert(s[line0.len() as int] == CR);
                assert(s[line0.len() as int + 1] == LF);
            }
            assert(forall|j: int| 0 <= j < line0.len() ==> s[j] == line0[j]);
            assert(forall|j: int| 0 <= j < line0.len() ==> !#[trigger] pair_at(s, CR, LF, j));
            lemma_find2_eq(s, CR, LF, line0.len() as int);
            assert(line =~= line0);
            assert(rest_s =~= block_of(rest));
        }
        // The line splits at the first `: ` into the entry's name and value.
        assert(pair_at(line0, COLON, SP, name.len() as int)) by {
            assert(line0[name.len() as int] == COLON);
            assert(line0[name.len() as int + 1] == SP);
        }
        assert(forall|j: int| 0 <= j < name.len() ==> line0[j] == name[j]);
        assert(forall|j: int| 0 <= j < name.len() ==> !#[trigger] pair_at(line0, COLON, SP, j));
        lemma_find2_eq(line0, COLON, SP, name.len() as int);
        assert(line0.subrange(0, name.len() as int) =~= name);
        assert(line0.subrange(name.len() as int + 2, line0.len() as int) =~= value);
        // The fresh key appends.
        assert(key_absent(acc, name));
        lemma_hm_find_props(acc, name);
        if let Some(f) = hm_find(acc, name) {
            assert(acc[f].0 != name);
        }
        assert(hm_insert(acc, name, value) == acc.push((name, value)));
        assert((name, value) == p0);
        let acc2 = acc.push(p0);
        assert(hm_lines(s, acc) == hm_lines(block_of(rest), acc2));
        // The remaining entries stay fresh with respect to the grown
        // accumulator.
        assert(distinct_keys(acc2)) by {
            lemma_hm_find_props(acc, name);
            assert(forall|j: int| 0 <= j < acc.len() ==> #[trigger] acc2[j] == acc[j]);
            assert(acc2[acc.len() as int] == p0);
        }
        assert(forall|i: int| 0 <= i < rest.len() ==> key_absent(acc2, (#[trigger] rest[i]).0))
            by {
            assert forall|i: int| 0 <= i < rest.len() implies key_absent(
                acc2,
                (#[trigger] rest[i]).0,
            ) by {
                assert(rest[i] == pairs[i + 1]);
                assert(key_absent(acc, pairs[i + 1].0));
                assert(pairs[0].0 != pairs[i + 1].0);
                assert(forall|j: int|
                    0 <= j < acc2.len() ==> (#[trigger] acc2[j]) == (if j < acc.len() {
                        acc[j]
                    } else {
                        p0
                    }));
            }
        }
        lemma_block_parse(rest, acc2);
        assert(acc2 + rest =~= acc + pairs);
    }
}

/// Rendering wire-safe entries and parsing the block back recovers exactly
/// those entries.
pub proof fn lemma_hm_parse_round_trip(pairs: Seq<SpecPair>)
    requires
        pairs_wire_ok(pairs),
    ensures
        crate::header_map::hm_parse(block_of(pairs)) == Some(pairs),
{
    let b = block_of(pairs);
    if pairs.len() == 0 {
        assert(b.len() == 0);
        assert(trim(b) == b);
        assert(hm_lines(trim(b), Seq::empty()) == Some(Seq::<SpecPair>::empty()));
        assert(Seq::<SpecPair>::empty() =~= pairs);
    } else {
        let line0 = header_line(pairs[0]);
        // The block opens with the first name's first byte and closes with
        // the last value's last byte, so trimming does nothing.
        assert(b[0] == pairs[0].0[0]);
        assert(!is_ws(b[0]));
        let rest = pairs.drop_first();
        assert(pairs_wire_ok(rest) && forall|j: int|
            0 <= j < rest.len() ==> #[trigger] rest[j] == pairs[j + 1]);
        if rest.len() == 0 {
            assert(b =~= line0);
            assert(b.last() == pairs[0].1.last());
        } else {
            lemma_render_lines_last(rest);
            assert(b.last() == render_lines(rest).last());
            assert(rest.last() == pairs.last());
        }
        assert(!is_ws(b.last()));
        crate::wire::lemma_trim_noop(b);
        lemma_block_parse(pairs, Seq::empty());
        assert(Seq::<SpecPair>::empty() + pairs =~= pairs);
    }
}

/// How the header region of a rendered message splits at its first CR LF:
/// the start line comes back exactly, and the rest is the header block.
pub proof fn lemma_start_split(start: Seq<u8>, pairs: Seq<SpecPair>)
    requires
        start.len() > 0,
        crlf_free(start),
        pairs_wire_ok(pairs),
    ensures
        pairs.len() == 0 ==> find2(start + render_lines(pairs), CR, LF) is None && start
            + render_lines(pairs) == start,
        pairs.len() > 0 ==> find2(start + render_lines(pairs), CR, LF) == Some(
            start.len() as int,
        ) && (start + render_lines(pairs)).subrange(0, start.len() as int) == start && (start
            + render_lines(pairs)).subrange(
            start.len() as int + 2,
            (start + render_lines(pairs)).len() as int,
        ) == block_of(pairs),
{
    let hr = start + render_lines(pairs);
    if pairs.len() == 0 {
        assert(hr =~= start);
        assert(forall|j: int| 0 <= j && j + 2 <= hr.len() ==> !#[trigger] pair_at(hr, CR, LF, j));
        lemma_find2_is_none(hr, CR, LF);
    } else {
        assert(hr =~= start + (seq![CR, LF] + block_of(pairs))) by {
            assert(render_lines(pairs) =~= seq![CR, LF] + block_of(pairs));
        }
        assert(pair_at(hr, CR, LF, start.len() as int)) by {
            assert(hr[start.len() as int] == CR);
            assert(hr[start.len() as int + 1] == LF);
        }
        assert(forall|j: int| 0 <= j < start.len() ==> hr[j] == start[j]);
        assert(forall|j: int| 0 <= j < start.len() ==> !#[trigger] pair_at(hr, CR, LF, j));
        lemma_find2_eq(hr, CR, LF, start.len() as int);
        assert(hr.subrange(0, start.len() as int) =~= start);
        assert(hr.subrange(start.len() as int + 2, hr.len() as int) =~= block_of(pairs));
    }
}

/// The name of the header that governs body length.
pub open spec fn cl_key() -> Seq<u8> {
    vstd::utf8::encode_utf8("Content-Length"@)
}

/// The concrete bytes of the `Content-Length` header name, and its wire
/// safety.
pub proof fn lemma_cl_key_props()
    ensures
        cl_key() == seq![67u8, 111, 110, 116, 101, 110, 116, 45, 76, 101, 110, 103, 116, 104],
        name_ok(cl_key()),
{
    reveal_strlit("Content-Length");
    vstd::string::is_ascii_spec_bytes("Content-Length");
    assert(cl_key() =~= seq![67u8, 111, 110, 116, 101, 110, 116, 45, 76, 101, 110, 103, 116, 104]);
}

/// A rendered decimal numeral is a wire-safe header value.
pub proof fn lemma_dec_bytes_value_ok(n: int)
    requires
        n >= 0,
    ensures
        value_ok(crate::wire::dec_bytes(n)),
{
    crate::wire::lemma_dec_bytes_val(n);
    let d = crate::wire::dec_bytes(n);
    assert(crate::wire::is_digit(d.last()));
}


/// A request target that survives a round trip over the wire: nonempty
/// ASCII free of whitespace.
pub open spec fn uri_ok(u: Seq<u8>) -> bool {
    u.len() > 0 && forall|i: int| 0 <= i < u.len() ==> !is_ws(#[trigger] u[i]) && u[i] < 128
}

/// The header list a builder hands to the serializer: `Content-Length` is
/// set to the body's exact length, or removed entirely when the body is
/// empty (it is never emitted as `0`).
pub open spec fn set_content_length(pairs: Seq<SpecPair>, body_len: int) -> Seq<SpecPair> {
    if body_len == 0 {
        crate::header_map::hm_remove(pairs, cl_key())
    } else {
        hm_insert(pairs, cl_key(), crate::wire::dec_bytes(body_len))
    }
}

/// `Content-Length` governance: the header is present with the body's
/// exact length, or absent when the body is empty.
pub open spec fn cl_entry_ok(pairs: Seq<SpecPair>, body_len: int) -> bool {
    crate::header_map::hm_get(pairs, cl_key()) == (if body_len > 0 {
        Some(crate::wire::dec_bytes(body_len))
    } else {
        Option::<Seq<u8>>::None
    })
}

/// Assigning a wire-safe entry keeps the whole list wire-safe.
pub proof fn lemma_hm_insert_wire_ok(pairs: Seq<SpecPair>, k: Seq<u8>, v: Seq<u8>)
    requires
        pairs_wire_ok(pairs),
        name_ok(k),
        value_ok(v),
    ensures
        pairs_wire_ok(hm_insert(pairs, k, v)),
    decreases pairs.len(),
{
    lemma_hm_find_props(pairs, k);
    lemma_hm_insert_distinct(pairs, k, v);
    let r = hm_insert(pairs, k, v);
    match hm_find(pairs, k) {
        None => {
            assert(forall|j: int| 0 <= j < pairs.len() ==> (#[trigger] r[j]) == pairs[j]);
            assert(r[pairs.len() as int] == (k, v));
        },
        Some(i) => {
            assert(forall|j: int| 0 <= j < r.len() && j != i ==> (#[trigger] r[j]) == pairs[j]);
            assert(r[i] == (k, v));
        },
    }
}

/// Removing an entry keeps the list wire-safe.
pub proof fn lemma_hm_remove_wire_ok(pairs: Seq<SpecPair>, k: Seq<u8>)
    requires
        pairs_wire_ok(pairs),
    ensures
        pairs_wire_ok(crate::header_map::hm_remove(pairs, k)),
{
    lemma_hm_find_props(pairs, k);
    crate::header_map::lemma_hm_remove_distinct(pairs, k);
    let r = crate::header_map::hm_remove(pairs, k);
    match hm_find(pairs, k) {
        None => {
        },
        Some(i) => {
            pairs.remove_ensures(i);
            assert(forall|j: int|
                0 <= j < r.len() ==> (#[trigger] r[j]) == (if j < i {
                    pairs[j]
                } else {
                    pairs[j + 1]
                }));
        },
    }
}

/// Setting the length header keeps the list wire-safe and establishes
/// `Content-Length` governance.
pub proof fn lemma_set_content_length(pairs: Seq<SpecPair>, body_len: int)
    requires
        pairs_wire_ok(pairs),
        body_len >= 0,
    ensures
        pairs_wire_ok(set_content_length(pairs, body_len)),
        cl_entry_ok(set_content_length(pairs, body_len), body_len),
{
    lemma_cl_key_props();
    if body_len == 0 {
        lemma_hm_remove_wire_ok(pairs, cl_key());
        crate::header_map::lemma_hm_remove_distinct(pairs, cl_key());
    } else {
        lemma_dec_bytes_value_ok(body_len);
        lemma_hm_insert_wire_ok(pairs, cl_key(), crate::wire::dec_bytes(body_len));
        lemma_hm_insert_distinct(pairs, cl_key(), crate::wire::dec_bytes(body_len));
    }
}

/// Rendering one more entry appends one more line.
pub proof fn lemma_render_lines_push(pairs: Seq<SpecPair>, p: SpecPair)
    ensures
        render_lines(pairs.push(p)) == render_lines(pairs) + seq![CR, LF] + header_line(p),
    decreases pairs.len(),
{
    if pairs.len() == 0 {
        let q = pairs.push(p);
        assert(q[0] == p);
        assert(q.drop_first() =~= Seq::<SpecPair>::empty());
        assert(render_lines(q) == seq![CR, LF] + header_line(q[0]) + render_lines(q.drop_first()));
        assert(render_lines(q.drop_first()).len() == 0);
        assert(render_lines(pairs).len() == 0);
        assert(render_lines(q) =~= render_lines(pairs) + seq![CR, LF] + header_line(p));
    } else {
        let q = pairs.push(p);
        assert(q[0] == pairs[0]);
        assert(q.drop_first() =~= pairs.drop_first().push(p));
        lemma_render_lines_push(pairs.drop_first(), p);
        assert(render_lines(q) =~= render_lines(pairs) + seq![CR, LF] + header_line(p));
    }
}


/// Where the rendered header lines embed entry `k`: the returned offset
/// points at the CR LF that precedes its `name: value` line.
pub proof fn lemma_render_lines_embeds(pairs: Seq<SpecPair>, k: int) -> (off: int)
    requires
        0 <= k < pairs.len(),
    ensures
        0 <= off,
        off + 2 + header_line(pairs[k]).len() <= render_lines(pairs).len(),
        render_lines(pairs).subrange(off, off + 2 + header_line(pairs[k]).len() as int) == seq![
            CR,
            LF,
        ] + header_line(pairs[k]),
    decreases pairs.len(),
{
    let line = header_line(pairs[k]);
    if k == 0 {
        assert(render_lines(pairs).subrange(0, 2 + line.len() as int) =~= seq![CR, LF] + line);
        0
    } else {
        let rest = pairs.drop_first();
        assert(rest[k - 1] == pairs[k]);
        let off0 = lemma_render_lines_embeds(rest, k - 1);
        let l0 = header_line(pairs[0]);
        let off = 2 + l0.len() as int + off0;
        assert(render_lines(pairs).subrange(off, off + 2 + line.len() as int) =~= render_lines(
            rest,
        ).subrange(off0, off0 + 2 + line.len() as int));
        off
    }
}

/// Where a whole message embeds header entry `k` of its header list.
pub proof fn lemma_message_embeds_header(
    start: Seq<u8>,
    pairs: Seq<SpecPair>,
    body: Seq<u8>,
    k: int,
) -> (off: int)
    requires
        0 <= k < pairs.len(),
    ensures
        0 <= off,
        off + 2 + header_line(pairs[k]).len() <= message_bytes(start, pairs, body).len(),
        message_bytes(start, pairs, body).subrange(
            off,
            off + 2 + header_line(pairs[k]).len() as int,
        ) == seq![CR, LF] + header_line(pairs[k]),
{
    let line = header_line(pairs[k]);
    let o = lemma_render_lines_embeds(pairs, k);
    let off = start.len() as int + o;
    assert(message_bytes(start, pairs, body).subrange(off, off + 2 + line.len() as int)
        =~= render_lines(pairs).subrange(o, o + 2 + line.len() as int));
    off
}

} // verus!
