//! The store's laws, each stated as the contract of a proof function:
//! decoding inverts encoding, a written object reads back exactly, the
//! canonical order is strict and determined by the entries alone, and a
//! unique prefix resolves to the same object as the full identifier.
use vstd::prelude::*;
use vstd::utf8::encode_utf8;
use crate::bytesx::lemma_find_byte_is;
use crate::bytesx::lex_le;
use crate::bytesx::lemma_lex_le_antisym;
use crate::ext::inflate_of;
use crate::hexnum::bytes_of_hex;
use crate::hexnum::lemma_bytes_of_hex_len;
use crate::hexnum::lemma_hex_of_bytes_of;
use crate::ids::matching_names;
use crate::object::blob_kind;
use crate::object::lemma_kind_bytes;
use crate::object::lemma_parse_obj_roundtrip;
use crate::object::obj_bytes;
use crate::object::tree_kind;
use crate::object::ObjectManipulator;
use crate::strbytes::lemma_ascii_encode;
use crate::strbytes::lemma_utf8_byte_char;
use crate::tree::distinct_names;
use crate::tree::entries_bytes;
use crate::tree::entries_sorted;
use crate::tree::entry_bytes;
use crate::tree::entry_le;
use crate::tree::lemma_multiset_all_wf;
use crate::tree::lemma_sorted_entries_of;
use crate::tree::opt_prepend;
use crate::tree::parse_entries;
use crate::tree::read_tree_spec;
use crate::tree::sorted_entries_of;
use crate::tree::wf_entry;
use crate::tree::wf_mode;
use crate::tree::TreeEntryV;

verus! {

/// The four mode numerals are ASCII digit strings.
proof fn lemma_mode_digits(m: Seq<char>)
    requires
        wf_mode(m),
    ensures
        vstd::utf8::is_ascii_chars(m),
        forall|i: int| 0 <= i < m.len() ==> '0' <= #[trigger] m[i] <= '9',
{
}

/// Encoding then decoding one tree entry record recovers the entry
/// exactly: a well-formed entry's record, followed by any further bytes,
/// parses back to that entry followed by whatever the remainder yields.
pub proof fn lemma_entry_roundtrip(e: TreeEntryV, rest: Seq<u8>)
    requires
        wf_entry(e),
    ensures
        parse_entries(entry_bytes(e) + rest) == opt_prepend(seq![e], parse_entries(rest)),
{
    let mode_b = encode_utf8(e.mode);
    let name_b = encode_utf8(e.name);
    let hash_b = bytes_of_hex(e.hash);
    lemma_bytes_of_hex_len(e.hash);
    assert(hash_b.len() == 20);
    lemma_mode_digits(e.mode);
    lemma_ascii_encode(e.mode);
    assert(forall|i: int|
        0 <= i < mode_b.len() ==> 0x30 <= #[trigger] mode_b[i] <= 0x39) by {
        assert(forall|i: int| 0 <= i < e.mode.len() ==> mode_b[i] == #[trigger] e.mode[i] as u8);
    }
    assert(mode_b.len() > 0);
    lemma_utf8_byte_char(e.name, '\0');
    assert(!name_b.contains(0));
    assert forall|j: int| 0 <= j < name_b.len() implies #[trigger] name_b[j] != 0 by {
        if name_b[j] == 0 {
            assert(name_b.contains(0));
        }
    }
    let bytes = entry_bytes(e) + rest;
    let head = mode_b + seq![0x20u8] + name_b;
    let z = head.len() as int;
    assert(bytes =~= head + seq![0u8] + hash_b + rest);
    assert forall|j: int| 0 <= j < z implies #[trigger] bytes[j] != 0 by {
        assert(bytes[j] == head[j]);
        if j < mode_b.len() {
            assert(head[j] == mode_b[j]);
        } else if j == mode_b.len() {
            assert(head[j] == 0x20);
        } else {
            assert(head[j] == name_b[j - mode_b.len() - 1]);
        }
    }
    assert(bytes[z] == 0);
    lemma_find_byte_is(bytes, 0, z);
    assert(bytes.take(z) =~= head);
    assert forall|j: int| 0 <= j < mode_b.len() implies #[trigger] head[j] != 0x20 by {
        assert(head[j] == mode_b[j]);
    }
    assert(head[mode_b.len() as int] == 0x20);
    lemma_find_byte_is(head, 0x20, mode_b.len() as int);
    assert(bytes.len() == z + 21 + rest.len());
    assert(head.take(mode_b.len() as int) =~= mode_b);
    assert(head.skip(mode_b.len() as int + 1) =~= name_b);
    vstd::utf8::encode_utf8_valid_utf8(e.mode);
    vstd::utf8::encode_utf8_valid_utf8(e.name);
    vstd::utf8::encode_utf8_decode_utf8(e.mode);
    vstd::utf8::encode_utf8_decode_utf8(e.name);
    assert(bytes.subrange(z + 1, z + 21) =~= hash_b);
    lemma_hex_of_bytes_of(e.hash);
    assert(bytes.skip(z + 21) =~= rest);
    let parsed = TreeEntryV {
        mode: vstd::utf8::decode_utf8(mode_b),
        name: vstd::utf8::decode_utf8(name_b),
        hash: crate::hexnum::hex_of(bytes.subrange(z + 1, z + 21)),
    };
    assert(parsed =~= e);
    assert(parse_entries(bytes) == opt_prepend(seq![e], parse_entries(rest)));
}

/// Encoding then decoding a whole payload of well-formed entries recovers
/// the entry list exactly, in order.
pub proof fn lemma_entries_roundtrip(es: Seq<TreeEntryV>)
    requires
        forall|i: int| 0 <= i < es.len() ==> wf_entry(#[trigger] es[i]),
    ensures
        parse_entries(entries_bytes(es)) == Some(es),
    decreases es.len(),
{
    if es.len() == 0 {
        assert(entries_bytes(es) =~= Seq::<u8>::empty());
    } else {
        let tail = es.drop_first();
        assert(forall|i: int| 0 <= i < tail.len() ==> wf_entry(#[trigger] tail[i]));
        lemma_entries_roundtrip(tail);
        lemma_entry_roundtrip(es[0], entries_bytes(tail));
        assert(entries_bytes(es) == entry_bytes(es[0]) + entries_bytes(tail));
        assert(seq![es[0]] + tail =~= es);
    }
}

/// A written blob reads back as exactly the bytes written, under the
/// header the writer put before them.
pub proof fn lemma_write_read_blob(content: Seq<u8>, file: Seq<u8>)
    requires
        content.len() <= usize::MAX,
        inflate_of(file) == Some(obj_bytes(blob_kind(), content)),
    ensures
        ObjectManipulator::read_blob_spec(file) == Some(Some(content)),
{
    lemma_kind_bytes(blob_kind());
    lemma_parse_obj_roundtrip(blob_kind(), content);
}

/// Reading back a written tree yields the same ordered entry list that
/// the writer sorted: the canonical order of the entries handed to it.
pub proof fn lemma_write_read_tree(es: Seq<TreeEntryV>, file: Seq<u8>)
    requires
        forall|i: int| 0 <= i < es.len() ==> wf_entry(#[trigger] es[i]),
        entries_bytes(sorted_entries_of(es)).len() <= usize::MAX,
        inflate_of(file) == Some(obj_bytes(tree_kind(), entries_bytes(sorted_entries_of(es)))),
    ensures
        read_tree_spec(file) == Some(sorted_entries_of(es)),
{
    let s = sorted_entries_of(es);
    lemma_sorted_entries_of(es);
    lemma_multiset_all_wf(es, s);
    lemma_kind_bytes(tree_kind());
    lemma_parse_obj_roundtrip(tree_kind(), entries_bytes(s));
    lemma_entries_roundtrip(s);
}

/// The canonical order of entries with distinct names is strictly
/// increasing in byte-lexicographic name order, with no duplicate names.
pub proof fn lemma_canonical_order(es: Seq<TreeEntryV>)
    requires
        distinct_names(es),
    ensures
        entries_sorted(sorted_entries_of(es)),
        distinct_names(sorted_entries_of(es)),
        forall|i: int, j: int|
            0 <= i < j < sorted_entries_of(es).len() ==> lex_le(
                encode_utf8((#[trigger] sorted_entries_of(es)[i]).name),
                encode_utf8((#[trigger] sorted_entries_of(es)[j]).name),
            ) && encode_utf8(sorted_entries_of(es)[i].name) != encode_utf8(
                sorted_entries_of(es)[j].name,
            ),
{
    lemma_sorted_entries_of(es);
    let s = sorted_entries_of(es);
    assert forall|i: int, j: int| 0 <= i < j < s.len() implies lex_le(
        encode_utf8((#[trigger] s[i]).name),
        encode_utf8((#[trigger] s[j]).name),
    ) && encode_utf8(s[i].name) != encode_utf8(s[j].name) by {
        assert(entry_le(s[i], s[j]));
        if encode_utf8(s[i].name) == encode_utf8(s[j].name) {
            vstd::utf8::encode_utf8_decode_utf8(s[i].name);
            vstd::utf8::encode_utf8_decode_utf8(s[j].name);
            assert(s[i].name == s[j].name);
        }
    }
}

/// Two sorted entry lists with distinct names holding the same entries
/// are the same list.
proof fn lemma_sorted_multiset_unique(x: Seq<TreeEntryV>, y: Seq<TreeEntryV>)
    requires
        entries_sorted(x),
        entries_sorted(y),
        distinct_names(x),
        x.to_multiset() == y.to_multiset(),
    ensures
        x =~= y,
    decreases x.len(),
{
    broadcast use vstd::seq_lib::group_to_multiset_ensures;
    broadcast use vstd::multiset::group_multiset_axioms;

    if x.len() == 0 || y.len() == 0 {
        assert(x.to_multiset().len() == x.len());
        assert(y.to_multiset().len() == y.len());
        assert(x.len() == y.len());
    } else {
        assert(y.contains(y[0]));
        assert(y.to_multiset().count(y[0]) > 0);
        assert(x.to_multiset().count(y[0]) > 0);
        assert(x.contains(y[0]));
        let i = choose|i: int| 0 <= i < x.len() && x[i] == y[0];
        assert(x.contains(x[0]));
        assert(y.to_multiset().count(x[0]) > 0);
        assert(y.contains(x[0]));
        let j = choose|j: int| 0 <= j < y.len() && y[j] == x[0];
        if i != 0 {
            assert(entry_le(x[0], x[i]));
            if j == 0 {
                assert(x[i] == x[0]);
                assert(x[i].name == x[0].name);
                assert(false);
            } else {
                assert(entry_le(y[0], y[j]));
                lemma_lex_le_antisym(encode_utf8(x[0].name), encode_utf8(x[i].name));
                vstd::utf8::encode_utf8_decode_utf8(x[0].name);
                vstd::utf8::encode_utf8_decode_utf8(x[i].name);
                assert(x[0].name == x[i].name);
                assert(false);
            }
        }
        assert(x[0] == y[0]);
        let xt = x.drop_first();
        let yt = y.drop_first();
        assert(xt =~= x.remove(0));
        assert(yt =~= y.remove(0));
        vstd::seq_lib::to_multiset_remove(x, 0);
        vstd::seq_lib::to_multiset_remove(y, 0);
        assert(xt.to_multiset() =~= x.to_multiset().remove(x[0]));
        assert(yt.to_multiset() =~= y.to_multiset().remove(y[0]));
        assert(entries_sorted(xt) && distinct_names(xt)) by {
            assert(forall|a: int, b: int|
                0 <= a < b < xt.len() ==> xt[a] == x[a + 1] && xt[b] == x[b + 1]);
        }
        assert(entries_sorted(yt)) by {
            assert(forall|a: int, b: int|
                0 <= a < b < yt.len() ==> yt[a] == y[a + 1] && yt[b] == y[b + 1]);
        }
        lemma_sorted_multiset_unique(xt, yt);
        assert(x =~= seq![x[0]] + xt);
        assert(y =~= seq![y[0]] + yt);
    }
}

/// Writing a tree is deterministic: two entry collections holding the
/// same entries — in any order — sort to the same canonical list, and so
/// serialize to the same bytes and the same identifier.
pub proof fn lemma_write_tree_deterministic(a: Seq<TreeEntryV>, b: Seq<TreeEntryV>)
    requires
        a.to_multiset() == b.to_multiset(),
        distinct_names(a),
    ensures
        sorted_entries_of(a) == sorted_entries_of(b),
{
    lemma_sorted_entries_of(a);
    lemma_sorted_entries_of(b);
    lemma_canonical_order(a);
    lemma_sorted_multiset_unique(sorted_entries_of(a), sorted_entries_of(b));
}

/// One sequence is the start of another, transitively.
proof fn lemma_prefix_trans(p: Seq<char>, q: Seq<char>, r: Seq<char>)
    requires
        p.is_prefix_of(q),
        q.is_prefix_of(r),
    ensures
        p.is_prefix_of(r),
{
    assert(p =~= r.subrange(0, p.len() as int)) by {
        assert(forall|i: int|
            0 <= i < p.len() ==> #[trigger] p[i] == q.subrange(0, p.len() as int)[i]);
        assert(forall|i: int|
            0 <= i < q.len() ==> #[trigger] q[i] == r.subrange(0, q.len() as int)[i]);
    }
}

/// A stored name that a prefix begins is among the prefix's matches.
proof fn lemma_matching_contains(p: Seq<char>, names: Seq<Seq<char>>, x: Seq<char>)
    requires
        names.contains(x),
        p.is_prefix_of(x),
    ensures
        matching_names(p, names).contains(x),
    decreases names.len(),
{
    let k = choose|k: int| 0 <= k < names.len() && names[k] == x;
    let m = matching_names(p, names.drop_last());
    if k == names.len() - 1 {
        assert(names.last() == x);
        assert(matching_names(p, names) == m.push(x));
        assert(m.push(x)[m.len() as int] == x);
    } else {
        assert(names.drop_last()[k] == x);
        assert(names.drop_last().contains(x));
        lemma_matching_contains(p, names.drop_last(), x);
        let w = choose|w: int| 0 <= w < m.len() && m[w] == x;
        if p.is_prefix_of(names.last()) {
            assert(matching_names(p, names)[w] == x);
        } else {
            assert(matching_names(p, names) == m);
        }
    }
}

/// Whatever a longer prefix matches, a shorter one matches too, and no
/// more often.
proof fn lemma_matching_mono(p: Seq<char>, q: Seq<char>, names: Seq<Seq<char>>)
    requires
        p.is_prefix_of(q),
    ensures
        matching_names(q, names).len() <= matching_names(p, names).len(),
    decreases names.len(),
{
    if names.len() > 0 {
        lemma_matching_mono(p, q, names.drop_last());
        if q.is_prefix_of(names.last()) {
            lemma_prefix_trans(p, q, names.last());
        }
    }
}

/// Prefix resolution: when a prefix of a stored identifier matches
/// exactly one stored name, that name is the identifier itself, and the
/// full identifier resolves to the same single name.
pub proof fn lemma_prefix_resolution(p: Seq<char>, h: Seq<char>, names: Seq<Seq<char>>)
    requires
        names.contains(h),
        p.is_prefix_of(h),
        matching_names(p, names).len() == 1,
    ensures
        matching_names(p, names) =~= seq![h],
        matching_names(h, names) =~= seq![h],
{
    lemma_matching_contains(p, names, h);
    let mp = matching_names(p, names);
    let i = choose|i: int| 0 <= i < mp.len() && mp[i] == h;
    assert(i == 0);
    assert(mp =~= seq![h]);
    assert(h.is_prefix_of(h)) by {
        assert(h =~= h.subrange(0, h.len() as int));
    }
    lemma_matching_contains(h, names, h);
    let mh = matching_names(h, names);
    lemma_matching_mono(p, h, names);
    assert(mh.len() <= 1);
    let w = choose|w: int| 0 <= w < mh.len() && mh[w] == h;
    assert(mh.len() == 1);
    assert(w == 0);
    assert(mh =~= seq![h]);
}

} // verus!
