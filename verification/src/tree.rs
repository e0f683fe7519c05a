//! Tree objects: the binary entry records `<mode> <name>\0<20 digest
//! bytes>`, their codec, canonical ordering, and the tree read and write
//! operations.
use vstd::prelude::*;
use vstd::utf8::decode_utf8;
use vstd::utf8::encode_utf8;
use vstd::utf8::encode_utf8_decode_utf8;
use vstd::utf8::valid_utf8;
use crate::bytesx::bytes_eq;
use crate::bytesx::contains_byte;
use crate::bytesx::find_byte;
use crate::bytesx::find_byte_from;
use crate::bytesx::lemma_find_byte_absent;
use crate::bytesx::lemma_find_byte_is;
use crate::bytesx::lex_le;
use crate::bytesx::subvec;
use crate::errors::GitError;
use crate::ext::string_from_utf8;
use crate::ext::zlib_decompress;
use crate::hexnum::bytes_of_hex;
use crate::hexnum::hex_of;
use crate::hexnum::is_hex_char;
use crate::hexnum::lemma_bytes_of_hex_len;
use crate::object::parse_obj;
use crate::object::split_object;
use crate::object::tree_kind;
use crate::object::tree_kind_vec;
use crate::ext::inflate_of;
use crate::strbytes::bytes_to_hex;
use crate::strbytes::hex_str_to_bytes;
use crate::strbytes::lemma_ascii_bytes_chars;
use crate::strbytes::lemma_encode_len_zero;
use crate::strbytes::lemma_utf8_byte_char;
use crate::strbytes::str_eq;

verus! {

/// The mathematical shape of a tree entry: its mode numeral, its name,
/// and its referenced object's identifier, all as character sequences.
#[verifier::ext_equal]
pub ghost struct TreeEntryV {
    pub mode: Seq<char>,
    pub name: Seq<char>,
    pub hash: Seq<char>,
}

/// The mode numeral of a directory.
pub open spec fn mode_dir() -> Seq<char> {
    seq!['4', '0', '0', '0', '0']
}

/// The mode numeral of a symbolic link.
pub open spec fn mode_symlink() -> Seq<char> {
    seq!['1', '2', '0', '0', '0', '0']
}

/// The mode numeral of an executable regular file.
pub open spec fn mode_exec() -> Seq<char> {
    seq!['1', '0', '0', '7', '5', '5']
}

/// The mode numeral of a non-executable regular file.
pub open spec fn mode_regular() -> Seq<char> {
    seq!['1', '0', '0', '6', '4', '4']
}

/// A mode is one of the four numerals above.
pub open spec fn wf_mode(m: Seq<char>) -> bool {
    m == mode_dir() || m == mode_symlink() || m == mode_exec() || m == mode_regular()
}

/// An entry name is nonempty and holds neither a slash nor a NUL.
pub open spec fn wf_name(n: Seq<char>) -> bool {
    n.len() > 0 && !n.contains('/') && !n.contains('\0')
}

/// An identifier in an entry is forty lowercase hexadecimal digits.
pub open spec fn wf_hash(h: Seq<char>) -> bool {
    h.len() == 40 && forall|i: int| 0 <= i < h.len() ==> is_hex_char(#[trigger] h[i])
}

/// A well-formed entry.
pub open spec fn wf_entry(e: TreeEntryV) -> bool {
    wf_mode(e.mode) && wf_name(e.name) && wf_hash(e.hash)
}

/// One entry on disk: mode numeral, space, name, NUL, then the raw twenty
/// digest bytes the hexadecimal identifier denotes.
pub open spec fn entry_bytes(e: TreeEntryV) -> Seq<u8> {
    encode_utf8(e.mode) + seq![0x20u8] + encode_utf8(e.name) + seq![0u8] + bytes_of_hex(e.hash)
}

/// A tree's payload: its entries' records, one after the other.
pub open spec fn entries_bytes(es: Seq<TreeEntryV>) -> Seq<u8>
    decreases es.len(),
{
    if es.len() == 0 {
        Seq::empty()
    } else {
        entry_bytes(es[0]) + entries_bytes(es.drop_first())
    }
}

/// One directory entry of a tree object.
pub struct TreeEntry {
    mode: String,
    name: String,
    hash: String,
}

impl View for TreeEntry {
    type V = TreeEntryV;

    closed spec fn view(&self) -> TreeEntryV {
        TreeEntryV { mode: self.mode@, name: self.name@, hash: self.hash@ }
    }
}

/// The entries of a sequence, as their mathematical shapes.
pub open spec fn views_of(s: Seq<TreeEntry>) -> Seq<TreeEntryV> {
    s.map_values(|e: TreeEntry| e@)
}

impl TreeEntry {
    /// Builds a well-formed entry, or nothing when the mode is not one of
    /// the four numerals, the name is empty or holds `/` or NUL, or the
    /// hash is not forty lowercase hexadecimal digits.
    pub fn new(mode: String, name: String, hash: String) -> (r: Option<TreeEntry>)
        ensures
            match r {
                Some(e) => wf_entry(e@) && e@ == (TreeEntryV {
                    mode: mode@,
                    name: name@,
                    hash: hash@,
                }),
                None => !wf_entry(TreeEntryV { mode: mode@, name: name@, hash: hash@ }),
            },
    {
        let mode_ok = str_eq(mode.as_str(), "40000") || str_eq(mode.as_str(), "120000") || str_eq(
            mode.as_str(),
            "100755",
        ) || str_eq(mode.as_str(), "100644");
        proof {
            reveal_strlit("40000");
            reveal_strlit("120000");
            reveal_strlit("100755");
            reveal_strlit("100644");
            assert("40000"@ =~= mode_dir());
            assert("120000"@ =~= mode_symlink());
            assert("100755"@ =~= mode_exec());
            assert("100644"@ =~= mode_regular());
        }
        if !mode_ok {
            return None;
        }
        let nb = name.as_str().as_bytes();
        let name_ok = nb.len() > 0 && !contains_byte(nb, 0x2f) && !contains_byte(nb, 0);
        proof {
            lemma_encode_len_zero(name@);
            lemma_utf8_byte_char(name@, '/');
            lemma_utf8_byte_char(name@, '\0');
            assert('/' as u8 == 0x2f && '\0' as u8 == 0);
        }
        if !name_ok {
            return None;
        }
        let hb = hash.as_str().as_bytes();
        let hash_ok = hb.len() == 40 && {
            let mut all_hex = true;
            let mut i: usize = 0;
            while i < 40
                invariant
                    0 <= i <= 40,
                    hb@.len() == 40,
                    hb@ == encode_utf8(hash@),
                    all_hex == (forall|j: int|
                        0 <= j < i ==> crate::hexnum::is_hex_byte(#[trigger] hb@[j])),
                decreases 40 - i,
            {
                let b: u8 = *vstd::slice::slice_index_get(hb, i);
                if !((0x30 <= b && b <= 0x39) || (0x61 <= b && b <= 0x66)) {
                    all_hex = false;
                }
                i = i + 1;
            }
            all_hex
        };
        proof {
            if hash_ok {
                assert(crate::strbytes::all_ascii_bytes(encode_utf8(hash@))) by {
                    assert(forall|j: int|
                        0 <= j < encode_utf8(hash@).len() ==> crate::hexnum::is_hex_byte(
                            #[trigger] encode_utf8(hash@)[j],
                        ));
                }
                lemma_ascii_bytes_chars(hash@);
                assert forall|j: int| 0 <= j < hash@.len() implies is_hex_char(
                    #[trigger] hash@[j],
                ) by {
                    assert(hash@[j] == encode_utf8(hash@)[j] as char);
                    assert(crate::hexnum::is_hex_byte(encode_utf8(hash@)[j]));
                }
                lemma_encode_len_zero(hash@);
            } else {
                if wf_hash(hash@) {
                    assert forall|j: int| 0 <= j < hash@.len() implies ('\0'
                        <= #[trigger] hash@[j] <= '\u{7f}') by {
                        crate::hexnum::lemma_hex_char_ascii(hash@[j]);
                        vstd::utf8::char_u32_cast(hash@[j], hash@[j] as u32);
                    }
                    crate::strbytes::lemma_ascii_encode(hash@);
                    assert(hb@.len() == 40);
                    assert forall|j: int| 0 <= j < 40 implies crate::hexnum::is_hex_byte(
                        #[trigger] hb@[j],
                    ) by {
                        assert(hb@[j] == hash@[j] as u8);
                        assert(is_hex_char(hash@[j]));
                    }
                }
            }
        }
        if !hash_ok {
            return None;
        }
        Some(TreeEntry { mode, name, hash })
    }

    /// The entry's name.
    pub fn name(&self) -> (r: &str)
        ensures
            r@ == self@.name,
    {
        self.name.as_str()
    }

    /// The entry's mode numeral.
    pub fn mode(&self) -> (r: &str)
        ensures
            r@ == self@.mode,
    {
        self.mode.as_str()
    }

    /// The hexadecimal identifier the entry references.
    pub fn hash(&self) -> (r: &str)
        ensures
            r@ == self@.hash,
    {
        self.hash.as_str()
    }

    /// The length of the entry's on-disk record: mode, one space, name,
    /// one NUL, and twenty digest bytes.
    pub fn len_as_bytes(&self) -> (r: usize)
        requires
            encode_utf8(self@.mode).len() + encode_utf8(self@.name).len() + 22 <= usize::MAX,
        ensures
            r == encode_utf8(self@.mode).len() + encode_utf8(self@.name).len() + 22,
            wf_hash(self@.hash) ==> r == entry_bytes(self@).len(),
    {
        proof {
            if wf_hash(self@.hash) {
                lemma_bytes_of_hex_len(self@.hash);
            }
        }
        self.name.as_str().len() + self.mode.as_str().len() + 22
    }

    /// The entry's on-disk record.
    pub fn as_bytes(&self) -> (r: Vec<u8>)
        requires
            wf_hash(self@.hash),
        ensures
            r@ =~= entry_bytes(self@),
    {
        let mut v: Vec<u8> = Vec::new();
        v.extend_from_slice(self.mode.as_str().as_bytes());
        v.push(0x20);
        v.extend_from_slice(self.name.as_str().as_bytes());
        v.push(0);
        let mut raw = hex_str_to_bytes(self.hash.as_str());
        v.append(&mut raw);
        v
    }
}

/// Reads a tree payload as entry records: each record runs to its NUL,
/// splits at its first space into mode and name, and is followed by
/// exactly twenty digest bytes; the payload must end exactly at a record
/// boundary.  The digest is read back as lowercase hexadecimal.
pub open spec fn parse_entries(bytes: Seq<u8>) -> Option<Seq<TreeEntryV>>
    decreases bytes.len(),
{
    if bytes.len() == 0 {
        Some(Seq::empty())
    } else {
        let z = find_byte(bytes, 0);
        if z < 0 {
            None
        } else {
            let head = bytes.take(z);
            let sp = find_byte(head, 0x20);
            if sp < 0 {
                None
            } else if bytes.len() < z + 21 {
                None
            } else {
                let mode_b = head.take(sp);
                let name_b = head.skip(sp + 1);
                if !valid_utf8(mode_b) || !valid_utf8(name_b) {
                    None
                } else {
                    let e = TreeEntryV {
                        mode: decode_utf8(mode_b),
                        name: decode_utf8(name_b),
                        hash: hex_of(bytes.subrange(z + 1, z + 21)),
                    };
                    match parse_entries(bytes.skip(z + 21)) {
                        None => None,
                        Some(rest) => Some(seq![e] + rest),
                    }
                }
            }
        }
    }
}

/// Prepends parsed entries to a later parse's outcome.
pub open spec fn opt_prepend(prefix: Seq<TreeEntryV>, o: Option<Seq<TreeEntryV>>) -> Option<
    Seq<TreeEntryV>,
> {
    match o {
        None => None,
        Some(rest) => Some(prefix + rest),
    }
}

/// Decodes a tree payload, following `parse_entries` exactly; a payload
/// that breaks off inside a record, a record without NUL or space, or a
/// field that is not text is a corrupt object.
pub fn parse_tree_payload(payload: &Vec<u8>) -> (r: Result<Vec<TreeEntry>, GitError>)
    ensures
        match r {
            Ok(es) => parse_entries(payload@) == Some(views_of(es@)),
            Err(e) => e == GitError::CorruptObject && parse_entries(payload@) is None,
        },
{
    let n: usize = payload.len();
    let mut out: Vec<TreeEntry> = Vec::new();
    let mut pos: usize = 0;
    proof {
        assert(payload@.skip(0) =~= payload@);
        assert(views_of(out@) =~= Seq::<TreeEntryV>::empty());
        match parse_entries(payload@) {
            Some(r) => {
                assert(Seq::<TreeEntryV>::empty() + r =~= r);
            },
            None => {
            },
        }
    }
    while pos < n
        invariant
            0 <= pos <= n == payload@.len(),
            parse_entries(payload@) == opt_prepend(
                views_of(out@),
                parse_entries(payload@.skip(pos as int)),
            ),
        decreases n - pos,
    {
        let ghost suffix = payload@.skip(pos as int);
        proof {
            assert(suffix.len() == n - pos);
            assert(forall|j: int| 0 <= j < suffix.len() ==> #[trigger] suffix[j] == payload@[j
                + pos]);
        }
        let z: usize = match find_byte_from(payload, pos, 0) {
            Some(z) => z,
            None => {
                proof {
                    assert(find_byte(suffix, 0) == -1);
                    assert(parse_entries(suffix) is None);
                }
                return Err(GitError::CorruptObject);
            },
        };
        let ghost z_rel = z - pos;
        let ghost head = suffix.take(z_rel);
        proof {
            assert(find_byte(suffix, 0) == z_rel);
            assert(head =~= payload@.subrange(pos as int, z as int));
        }
        let sp_opt = find_byte_from(payload, pos, 0x20);
        let sp_ok: bool = match sp_opt {
            Some(s) => s < z,
            None => false,
        };
        if !sp_ok {
            proof {
                assert(forall|j: int| 0 <= j < head.len() ==> head[j] != 0x20);
                lemma_find_byte_absent(head, 0x20);
                assert(parse_entries(suffix) is None);
            }
            return Err(GitError::CorruptObject);
        }
        let sp: usize = match sp_opt {
            Some(s) => s,
            None => {
                proof {
                    assert(false);
                }
                0
            },
        };
        let ghost sp_rel = sp - pos;
        proof {
            assert(forall|j: int| 0 <= j < sp_rel ==> head[j] != 0x20);
            assert(head[sp_rel] == 0x20);
            lemma_find_byte_is(head, 0x20, sp_rel);
        }
        let rest_len: usize = n - z - 1;
        if rest_len < 20 {
            proof {
                assert(suffix.len() < z_rel + 21);
                assert(parse_entries(suffix) is None);
            }
            return Err(GitError::CorruptObject);
        }
        let ghost mode_b = head.take(sp_rel);
        let ghost name_b = head.skip(sp_rel + 1);
        proof {
            assert(mode_b =~= payload@.subrange(pos as int, sp as int));
            assert(name_b =~= payload@.subrange(sp as int + 1, z as int));
        }
        let mode_s: String = match string_from_utf8(subvec(payload, pos, sp)) {
            Some(s) => s,
            None => {
                proof {
                    assert(!valid_utf8(mode_b));
                    assert(parse_entries(suffix) is None);
                }
                return Err(GitError::CorruptObject);
            },
        };
        let name_s: String = match string_from_utf8(subvec(payload, sp + 1, z)) {
            Some(s) => s,
            None => {
                proof {
                    assert(!valid_utf8(name_b));
                    assert(parse_entries(suffix) is None);
                }
                return Err(GitError::CorruptObject);
            },
        };
        let raw = subvec(payload, z + 1, z + 21);
        let hash_s = bytes_to_hex(raw.as_slice());
        let ghost ev = TreeEntryV {
            mode: decode_utf8(mode_b),
            name: decode_utf8(name_b),
            hash: hex_of(suffix.subrange(z_rel + 1, z_rel + 21)),
        };
        let entry = TreeEntry { mode: mode_s, name: name_s, hash: hash_s };
        proof {
            encode_utf8_decode_utf8(entry.mode@);
            encode_utf8_decode_utf8(entry.name@);
            assert(suffix.subrange(z_rel + 1, z_rel + 21) =~= payload@.subrange(
                z as int + 1,
                z as int + 21,
            ));
            assert(entry@ =~= ev);
            assert(parse_entries(suffix) == opt_prepend(seq![ev], parse_entries(suffix.skip(
                z_rel + 21,
            ))));
            assert(suffix.skip(z_rel + 21) =~= payload@.skip(z as int + 21));
        }
        out.push(entry);
        proof {
            assert(views_of(out@) =~= views_of(out@.drop_last()).push(ev));
            assert(forall|p: Seq<TreeEntryV>|
                views_of(out@.drop_last()) + (seq![ev] + p) =~= #[trigger] (views_of(out@) + p));
            assert(parse_entries(payload@) == opt_prepend(
                views_of(out@),
                parse_entries(payload@.skip(z as int + 21)),
            ));
        }
        pos = z + 21;
    }
    proof {
        assert(payload@.skip(pos as int) =~= Seq::<u8>::empty());
        assert(parse_entries(payload@.skip(pos as int)) == Some(Seq::<TreeEntryV>::empty()));
        assert(views_of(out@) + Seq::<TreeEntryV>::empty() =~= views_of(out@));
    }
    Ok(out)
}

/// What reading a stored file as a tree yields: its decoded entries, or
/// no answer when the file is corrupt or holds another kind of object.
pub open spec fn read_tree_spec(file: Seq<u8>) -> Option<Seq<TreeEntryV>> {
    match inflate_of(file) {
        None => None,
        Some(o) => match parse_obj(o) {
            None => None,
            Some(kp) => if kp.0 == tree_kind() {
                parse_entries(kp.1)
            } else {
                None
            },
        },
    }
}

/// Canonical order between entries: byte-lexicographic on the names'
/// on-disk bytes.
pub open spec fn entry_le(a: TreeEntryV, b: TreeEntryV) -> bool {
    lex_le(encode_utf8(a.name), encode_utf8(b.name))
}

/// Every entry is at or before every later one.
pub open spec fn entries_sorted(es: Seq<TreeEntryV>) -> bool {
    forall|i: int, j: int|
        0 <= i < j < es.len() ==> entry_le(#[trigger] es[i], #[trigger] es[j])
}

/// No two entries share a name.
pub open spec fn distinct_names(es: Seq<TreeEntryV>) -> bool {
    forall|i: int, j: int|
        0 <= i < j < es.len() ==> (#[trigger] es[i]).name != (#[trigger] es[j]).name
}

/// True when some entry of `s` bears the name `n`.
pub open spec fn name_in(n: Seq<char>, s: Seq<TreeEntryV>) -> bool {
    exists|i: int| 0 <= i < s.len() && (#[trigger] s[i]).name == n
}

/// `e` placed before the first entry of `s` not at or before it.
pub open spec fn insert_sorted(e: TreeEntryV, s: Seq<TreeEntryV>) -> Seq<TreeEntryV>
    decreases s.len(),
{
    if s.len() == 0 {
        seq![e]
    } else if entry_le(s[0], e) {
        seq![s[0]] + insert_sorted(e, s.drop_first())
    } else {
        seq![e] + s
    }
}

/// `s` folded into `acc`, last entry first, by sorted insertion.
pub open spec fn sort_into(s: Seq<TreeEntryV>, acc: Seq<TreeEntryV>) -> Seq<TreeEntryV>
    decreases s.len(),
{
    if s.len() == 0 {
        acc
    } else {
        sort_into(s.drop_last(), insert_sorted(s.last(), acc))
    }
}

/// The canonical order of a collection of entries.
pub open spec fn sorted_entries_of(s: Seq<TreeEntryV>) -> Seq<TreeEntryV> {
    sort_into(s, Seq::empty())
}

/// Sorted insertion inserts: the outcome holds the same entries plus the
/// new one, stays sorted, and bears a name exactly where the old entries
/// or the new one bear it.
pub proof fn lemma_insert_sorted(e: TreeEntryV, s: Seq<TreeEntryV>)
    ensures
        insert_sorted(e, s).to_multiset() == s.to_multiset().insert(e),
        entries_sorted(s) ==> entries_sorted(insert_sorted(e, s)),
        forall|n: Seq<char>|
            #[trigger] name_in(n, insert_sorted(e, s)) <==> name_in(n, s) || n == e.name,
        distinct_names(s) && !name_in(e.name, s) ==> distinct_names(insert_sorted(e, s)),
    decreases s.len(),
{
    broadcast use vstd::seq_lib::group_to_multiset_ensures;
    broadcast use vstd::multiset::group_multiset_axioms;

    let r = insert_sorted(e, s);
    if s.len() == 0 {
        assert(seq![e] =~= Seq::<TreeEntryV>::empty().push(e));
        assert(Seq::<TreeEntryV>::empty().push(e).to_multiset() =~= Seq::<
            TreeEntryV,
        >::empty().to_multiset().insert(e));
        assert forall|n: Seq<char>| #[trigger] name_in(n, r) implies (name_in(n, s) || n
            == e.name) by {
            let i = choose|i: int| 0 <= i < r.len() && (#[trigger] r[i]).name == n;
            assert(r[i] == e);
        }
        assert forall|n: Seq<char>| n == e.name implies #[trigger] name_in(n, r) by {
            assert(r[0].name == n);
        }
    } else if entry_le(s[0], e) {
        let tail = s.drop_first();
        lemma_insert_sorted(e, tail);
        let rt = insert_sorted(e, tail);
        assert(r == seq![s[0]] + rt);
        assert(s =~= seq![s[0]] + tail);
        vstd::seq_lib::lemma_multiset_commutative(seq![s[0]], rt);
        vstd::seq_lib::lemma_multiset_commutative(seq![s[0]], tail);
        assert(r.to_multiset() =~= s.to_multiset().insert(e));
        // Sortedness: the old head stays at or before everything behind it.
        if entries_sorted(s) {
            assert(entries_sorted(tail)) by {
                assert(forall|i: int, j: int|
                    0 <= i < j < tail.len() ==> tail[i] == s[i + 1] && tail[j] == s[j + 1]);
            }
            assert forall|i: int, j: int| 0 <= i < j < r.len() implies entry_le(
                #[trigger] r[i],
                #[trigger] r[j],
            ) by {
                if i == 0 {
                    let x = r[j];
                    assert(rt[j - 1] == x);
                    assert(rt.contains(x));
                    assert(rt.to_multiset().count(x) > 0);
                    if x == e {
                        assert(entry_le(s[0], e));
                    } else {
                        assert(tail.to_multiset().count(x) > 0);
                        assert(tail.contains(x));
                        let k = choose|k: int| 0 <= k < tail.len() && tail[k] == x;
                        assert(s[k + 1] == x);
                        assert(entry_le(s[0], s[k + 1]));
                    }
                } else {
                    assert(r[i] == rt[i - 1] && r[j] == rt[j - 1]);
                }
            }
        }
        // Names: head keeps its name, the rest by induction.
        assert forall|n: Seq<char>| #[trigger] name_in(n, r) implies (name_in(n, s) || n
            == e.name) by {
            let i = choose|i: int| 0 <= i < r.len() && (#[trigger] r[i]).name == n;
            if i == 0 {
                assert(s[0].name == n);
            } else {
                assert(rt[i - 1].name == n);
                assert(name_in(n, rt));
                if name_in(n, tail) {
                    let k = choose|k: int| 0 <= k < tail.len() && (#[trigger] tail[k]).name == n;
                    assert(s[k + 1].name == n);
                }
            }
        }
        assert forall|n: Seq<char>| name_in(n, s) || n == e.name implies #[trigger] name_in(
            n,
            r,
        ) by {
            if name_in(n, s) {
                let i = choose|i: int| 0 <= i < s.len() && (#[trigger] s[i]).name == n;
                if i == 0 {
                    assert(r[0].name == n);
                } else {
                    assert(tail[i - 1].name == n);
                    assert(name_in(n, rt));
                    let k = choose|k: int| 0 <= k < rt.len() && (#[trigger] rt[k]).name == n;
                    assert(r[k + 1].name == n);
                }
            } else {
                assert(name_in(n, rt));
                let k = choose|k: int| 0 <= k < rt.len() && (#[trigger] rt[k]).name == n;
                assert(r[k + 1].name == n);
            }
        }
        if distinct_names(s) && !name_in(e.name, s) {
            assert(distinct_names(tail)) by {
                assert(forall|i: int, j: int|
                    0 <= i < j < tail.len() ==> tail[i] == s[i + 1] && tail[j] == s[j + 1]);
            }
            assert(!name_in(e.name, tail)) by {
                if name_in(e.name, tail) {
                    let k = choose|k: int|
                        0 <= k < tail.len() && (#[trigger] tail[k]).name == e.name;
                    assert(s[k + 1].name == e.name);
                }
            }
            assert forall|i: int, j: int| 0 <= i < j < r.len() implies (
            #[trigger] r[i]).name != (#[trigger] r[j]).name by {
                if i == 0 {
                    assert(rt[j - 1] == r[j]);
                    assert(name_in(r[j].name, rt));
                    if r[j].name == s[0].name {
                        if name_in(r[j].name, tail) {
                            let k = choose|k: int|
                                0 <= k < tail.len() && (#[trigger] tail[k]).name == r[j].name;
                            assert(s[k + 1].name == s[0].name);
                        } else {
                            assert(r[j].name == e.name);
                            assert(s[0].name == e.name);
                            assert(name_in(e.name, s)) by {
                                assert(s[0].name == e.name);
                            }
                        }
                    }
                } else {
                    assert(r[i] == rt[i - 1] && r[j] == rt[j - 1]);
                }
            }
        }
    } else {
        assert(r == seq![e] + s);
        vstd::seq_lib::lemma_multiset_commutative(seq![e], s);
        assert(r.to_multiset() =~= s.to_multiset().insert(e));
        if entries_sorted(s) {
            assert forall|i: int, j: int| 0 <= i < j < r.len() implies entry_le(
                #[trigger] r[i],
                #[trigger] r[j],
            ) by {
                if i == 0 {
                    // e is at or before the old head, hence before everything.
                    crate::bytesx::lemma_lex_le_total(
                        encode_utf8(s[0].name),
                        encode_utf8(e.name),
                    );
                    assert(entry_le(e, s[0]));
                    if j > 1 {
                        assert(entry_le(s[0], s[j - 1]));
                        crate::bytesx::lemma_lex_le_trans(
                            encode_utf8(e.name),
                            encode_utf8(s[0].name),
                            encode_utf8(s[j - 1].name),
                        );
                    }
                    assert(r[j] == s[j - 1]);
                } else {
                    assert(r[i] == s[i - 1] && r[j] == s[j - 1]);
                }
            }
        }
        assert forall|n: Seq<char>| #[trigger] name_in(n, r) implies (name_in(n, s) || n
            == e.name) by {
            let i = choose|i: int| 0 <= i < r.len() && (#[trigger] r[i]).name == n;
            if i > 0 {
                assert(s[i - 1].name == n);
            }
        }
        assert forall|n: Seq<char>| name_in(n, s) || n == e.name implies #[trigger] name_in(
            n,
            r,
        ) by {
            if name_in(n, s) {
                let i = choose|i: int| 0 <= i < s.len() && (#[trigger] s[i]).name == n;
                assert(r[i + 1].name == n);
            } else {
                assert(r[0].name == n);
            }
        }
        if distinct_names(s) && !name_in(e.name, s) {
            assert forall|i: int, j: int| 0 <= i < j < r.len() implies (
            #[trigger] r[i]).name != (#[trigger] r[j]).name by {
                if i == 0 {
                    assert(r[j] == s[j - 1]);
                    if r[j].name == e.name {
                        assert(name_in(e.name, s)) by {
                            assert(s[j - 1].name == e.name);
                        }
                    }
                } else {
                    assert(r[i] == s[i - 1] && r[j] == s[j - 1]);
                }
            }
        }
    }
}

/// Folding keeps every entry, sorts the outcome, and neither invents nor
/// drops a name.
pub proof fn lemma_sort_into(s: Seq<TreeEntryV>, acc: Seq<TreeEntryV>)
    ensures
        sort_into(s, acc).to_multiset() == s.to_multiset().add(acc.to_multiset()),
        entries_sorted(acc) ==> entries_sorted(sort_into(s, acc)),
        forall|n: Seq<char>|
            #[trigger] name_in(n, sort_into(s, acc)) <==> name_in(n, s) || name_in(n, acc),
        distinct_names(s) && distinct_names(acc) && (forall|n: Seq<char>|
            !(#[trigger] name_in(n, s) && name_in(n, acc))) ==> distinct_names(sort_into(s, acc)),
    decreases s.len(),
{
    broadcast use vstd::seq_lib::group_to_multiset_ensures;
    broadcast use vstd::multiset::group_multiset_axioms;

    if s.len() == 0 {
        assert(s.to_multiset() =~= vstd::multiset::Multiset::empty());
        assert(sort_into(s, acc).to_multiset() =~= s.to_multiset().add(acc.to_multiset()));
        assert forall|n: Seq<char>| #[trigger] name_in(n, s) implies false by {
            let i = choose|i: int| 0 <= i < s.len() && (#[trigger] s[i]).name == n;
        }
    } else {
        let e = s.last();
        let front = s.drop_last();
        let acc2 = insert_sorted(e, acc);
        lemma_insert_sorted(e, acc);
        lemma_sort_into(front, acc2);
        assert(s =~= front.push(e));
        assert(s.to_multiset() =~= front.to_multiset().insert(e));
        assert(sort_into(s, acc) == sort_into(front, acc2));
        assert(sort_into(front, acc2).to_multiset() =~= s.to_multiset().add(acc.to_multiset()));
        // Names of s split into its front and its last entry.
        assert forall|n: Seq<char>| #[trigger] name_in(n, s) implies (name_in(n, front) || n
            == e.name) by {
            let i = choose|i: int| 0 <= i < s.len() && (#[trigger] s[i]).name == n;
            if i < s.len() - 1 {
                assert(front[i].name == n);
            }
        }
        assert forall|n: Seq<char>| name_in(n, front) implies #[trigger] name_in(n, s) by {
            let i = choose|i: int| 0 <= i < front.len() && (#[trigger] front[i]).name == n;
            assert(s[i].name == n);
        }
        assert(name_in(e.name, s)) by {
            assert(s[s.len() - 1].name == e.name);
        }
        if distinct_names(s) && distinct_names(acc) && (forall|n: Seq<char>|
            !(#[trigger] name_in(n, s) && name_in(n, acc)))
        {
            assert(distinct_names(front)) by {
                assert(forall|i: int, j: int|
                    0 <= i < j < front.len() ==> front[i] == s[i] && front[j] == s[j]);
            }
            assert(!name_in(e.name, acc));
            assert(!name_in(e.name, front)) by {
                if name_in(e.name, front) {
                    let i = choose|i: int|
                        0 <= i < front.len() && (#[trigger] front[i]).name == e.name;
                    assert(s[i].name == s[s.len() - 1].name);
                }
            }
            assert(distinct_names(acc2));
            assert forall|n: Seq<char>| !(#[trigger] name_in(n, front) && name_in(n, acc2)) by {
                if name_in(n, front) && name_in(n, acc2) {
                    assert(name_in(n, s));
                    if n == e.name {
                        assert(!name_in(e.name, front));
                    } else {
                        assert(name_in(n, acc));
                        assert(!(name_in(n, s) && name_in(n, acc)));
                    }
                }
            }
        }
    }
}

/// The canonical order keeps the entries, sorts them, and keeps their
/// names distinct when they were.
pub proof fn lemma_sorted_entries_of(s: Seq<TreeEntryV>)
    ensures
        sorted_entries_of(s).to_multiset() == s.to_multiset(),
        entries_sorted(sorted_entries_of(s)),
        distinct_names(s) ==> distinct_names(sorted_entries_of(s)),
        forall|n: Seq<char>| #[trigger] name_in(n, sorted_entries_of(s)) <==> name_in(n, s),
{
    broadcast use vstd::seq_lib::group_to_multiset_ensures;
    broadcast use vstd::multiset::group_multiset_axioms;

    let acc = Seq::<TreeEntryV>::empty();
    lemma_sort_into(s, acc);
    assert(acc.to_multiset() =~= vstd::multiset::Multiset::empty());
    assert(s.to_multiset().add(acc.to_multiset()) =~= s.to_multiset());
    assert forall|n: Seq<char>| #[trigger] name_in(n, acc) implies false by {
        let i = choose|i: int| 0 <= i < acc.len() && (#[trigger] acc[i]).name == n;
    }
}

/// Where sorted insertion lands: at the first index whose entry is not at
/// or before the new one.
proof fn lemma_insert_sorted_at(e: TreeEntryV, s: Seq<TreeEntryV>, k: int)
    requires
        0 <= k <= s.len(),
        forall|j: int| 0 <= j < k ==> entry_le(#[trigger] s[j], e),
        k < s.len() ==> !entry_le(s[k], e),
    ensures
        insert_sorted(e, s) =~= s.insert(k, e),
    decreases k,
{
    if k == 0 {
        if s.len() == 0 {
            assert(insert_sorted(e, s) =~= s.insert(0, e));
        } else {
            assert(!entry_le(s[0], e));
            assert(insert_sorted(e, s) =~= s.insert(0, e));
        }
    } else {
        assert(entry_le(s[0], e));
        let tail = s.drop_first();
        assert(forall|j: int| 0 <= j < k - 1 ==> entry_le(#[trigger] tail[j], e));
        assert(k - 1 < tail.len() ==> !entry_le(tail[k - 1], e));
        lemma_insert_sorted_at(e, tail, k - 1);
        assert(insert_sorted(e, s) == seq![s[0]] + insert_sorted(e, tail));
        assert(seq![s[0]] + tail.insert(k - 1, e) =~= s.insert(k, e));
    }
}

/// The index before which `e` belongs: the first whose entry is not at or
/// before `e`.
fn insert_position(out: &Vec<TreeEntry>, e: &TreeEntry) -> (k: usize)
    ensures
        0 <= k <= out@.len(),
        forall|j: int| 0 <= j < k ==> entry_le(#[trigger] views_of(out@)[j], e@),
        k < out@.len() ==> !entry_le(views_of(out@)[k as int], e@),
{
    let n: usize = out.len();
    let mut k: usize = 0;
    while k < n
        invariant
            0 <= k <= n == out@.len(),
            forall|j: int| 0 <= j < k ==> entry_le(#[trigger] views_of(out@)[j], e@),
        decreases n - k,
    {
        let le = crate::bytesx::lex_le_bytes(
            out[k].name.as_str().as_bytes(),
            e.name.as_str().as_bytes(),
        );
        proof {
            assert(views_of(out@)[k as int] == out@[k as int]@);
        }
        if !le {
            return k;
        }
        k = k + 1;
    }
    k
}

/// Sorts entries into canonical order.
pub fn sort_entries(entries: Vec<TreeEntry>) -> (r: Vec<TreeEntry>)
    ensures
        views_of(r@) == sorted_entries_of(views_of(entries@)),
{
    let ghost orig = views_of(entries@);
    let mut es = entries;
    let mut out: Vec<TreeEntry> = Vec::new();
    proof {
        assert(views_of(out@) =~= Seq::<TreeEntryV>::empty());
        assert(views_of(es@) =~= orig);
    }
    while es.len() > 0
        invariant
            sort_into(views_of(es@), views_of(out@)) == sorted_entries_of(orig),
        decreases es.len(),
    {
        let ghost es_v = views_of(es@);
        let ghost out_v = views_of(out@);
        let e = match es.pop() {
            Some(e) => e,
            None => {
                proof {
                    assert(false);
                }
                return out;
            },
        };
        proof {
            assert(views_of(es@) =~= es_v.drop_last());
            assert(e@ == es_v.last());
        }
        let k = insert_position(&out, &e);
        proof {
            lemma_insert_sorted_at(e@, out_v, k as int);
        }
        out.insert(k, e);
        proof {
            assert(views_of(out@) =~= out_v.insert(k as int, e@));
            assert(views_of(out@) =~= insert_sorted(es_v.last(), out_v));
            assert(sort_into(es_v, out_v) == sort_into(
                es_v.drop_last(),
                insert_sorted(es_v.last(), out_v),
            ));
        }
    }
    proof {
        assert(views_of(es@).len() == 0);
        assert(sort_into(views_of(es@), views_of(out@)) == views_of(out@));
    }
    out
}

/// Appending an entry appends its record.
pub proof fn lemma_entries_bytes_snoc(s: Seq<TreeEntryV>, e: TreeEntryV)
    ensures
        entries_bytes(s.push(e)) =~= entries_bytes(s) + entry_bytes(e),
    decreases s.len(),
{
    if s.len() == 0 {
        assert(s.push(e)[0] == e);
        assert(s.push(e).drop_first() =~= Seq::<TreeEntryV>::empty());
        assert(entries_bytes(Seq::<TreeEntryV>::empty()) =~= Seq::<u8>::empty());
        assert(entries_bytes(s) =~= Seq::<u8>::empty());
    } else {
        assert(s.push(e)[0] == s[0]);
        assert(s.push(e).drop_first() =~= s.drop_first().push(e));
        lemma_entries_bytes_snoc(s.drop_first(), e);
    }
}

/// What one collection's entries satisfy, a rearrangement's satisfy too.
proof fn lemma_multiset_all_wf_hash(a: Seq<TreeEntryV>, b: Seq<TreeEntryV>)
    requires
        a.to_multiset() == b.to_multiset(),
        forall|i: int| 0 <= i < a.len() ==> wf_hash((#[trigger] a[i]).hash),
    ensures
        forall|i: int| 0 <= i < b.len() ==> wf_hash((#[trigger] b[i]).hash),
{
    broadcast use vstd::seq_lib::group_to_multiset_ensures;

    assert forall|i: int| 0 <= i < b.len() implies wf_hash((#[trigger] b[i]).hash) by {
        let x = b[i];
        assert(b.contains(x));
        assert(b.to_multiset().count(x) > 0);
        assert(a.to_multiset().count(x) > 0);
        assert(a.contains(x));
        let j = choose|j: int| 0 <= j < a.len() && a[j] == x;
        assert(wf_hash(a[j].hash));
    }
}

/// As above, for full well-formedness.
pub proof fn lemma_multiset_all_wf(a: Seq<TreeEntryV>, b: Seq<TreeEntryV>)
    requires
        a.to_multiset() == b.to_multiset(),
        forall|i: int| 0 <= i < a.len() ==> wf_entry(#[trigger] a[i]),
    ensures
        forall|i: int| 0 <= i < b.len() ==> wf_entry(#[trigger] b[i]),
{
    broadcast use vstd::seq_lib::group_to_multiset_ensures;

    assert forall|i: int| 0 <= i < b.len() implies wf_entry(#[trigger] b[i]) by {
        let x = b[i];
        assert(b.contains(x));
        assert(b.to_multiset().count(x) > 0);
        assert(a.to_multiset().count(x) > 0);
        assert(a.contains(x));
        let j = choose|j: int| 0 <= j < a.len() && a[j] == x;
        assert(wf_entry(a[j]));
    }
}

impl crate::object::ObjectManipulator {
    /// Reads a stored object file as a tree: decompresses, checks the
    /// kind, and decodes the entries in their stored order.
    pub fn read_tree(file: &[u8]) -> (r: Result<Vec<TreeEntry>, GitError>)
        ensures
            match r {
                Ok(es) => read_tree_spec(file@) == Some(views_of(es@)),
                Err(e) => e == GitError::CorruptObject && read_tree_spec(file@) is None,
            },
    {
        let data: Vec<u8> = match zlib_decompress(file) {
            Some(d) => d,
            None => {
                return Err(GitError::CorruptObject);
            },
        };
        let (kind, payload) = match split_object(&data) {
            Ok(kp) => kp,
            Err(e) => {
                return Err(e);
            },
        };
        let tk = tree_kind_vec();
        if !bytes_eq(kind.as_slice(), tk.as_slice()) {
            return Err(GitError::CorruptObject);
        }
        parse_tree_payload(&payload)
    }

    /// Serializes a directory's entries as a tree object, in canonical
    /// order: the identifier and compressed bytes are functions of the
    /// entries alone, so identical collections give identical trees.
    pub fn write_tree(entries: Vec<TreeEntry>) -> (r: crate::object::WrittenObject)
        requires
            forall|i: int|
                0 <= i < views_of(entries@).len() ==> wf_hash(
                    (#[trigger] views_of(entries@)[i]).hash,
                ),
        ensures
            r.id@ =~= crate::object::object_id(
                tree_kind(),
                entries_bytes(sorted_entries_of(views_of(entries@))),
            ),
            r.id@.len() == 40,
            r.compressed@ == crate::ext::deflate_of(
                crate::object::obj_bytes(
                    tree_kind(),
                    entries_bytes(sorted_entries_of(views_of(entries@))),
                ),
            ),
            inflate_of(r.compressed@) == Some(
                crate::object::obj_bytes(
                    tree_kind(),
                    entries_bytes(sorted_entries_of(views_of(entries@))),
                ),
            ),
    {
        let ghost views0 = views_of(entries@);
        let sorted = sort_entries(entries);
        proof {
            lemma_sorted_entries_of(views0);
            lemma_multiset_all_wf_hash(views0, views_of(sorted@));
        }
        let mut payload: Vec<u8> = Vec::new();
        let n: usize = sorted.len();
        let mut i: usize = 0;
        proof {
            assert(views_of(sorted@).take(0) =~= Seq::<TreeEntryV>::empty());
            assert(entries_bytes(Seq::<TreeEntryV>::empty()) =~= Seq::<u8>::empty());
        }
        while i < n
            invariant
                0 <= i <= n == sorted@.len(),
                views_of(sorted@) == sorted_entries_of(views0),
                forall|j: int|
                    0 <= j < views_of(sorted@).len() ==> wf_hash(
                        (#[trigger] views_of(sorted@)[j]).hash,
                    ),
                payload@ =~= entries_bytes(views_of(sorted@).take(i as int)),
            decreases n - i,
        {
            proof {
                assert(sorted@[i as int]@ == views_of(sorted@)[i as int]);
            }
            let mut rec = sorted[i].as_bytes();
            payload.append(&mut rec);
            proof {
                assert(views_of(sorted@).take(i + 1) =~= views_of(sorted@).take(
                    i as int,
                ).push(views_of(sorted@)[i as int]));
                lemma_entries_bytes_snoc(
                    views_of(sorted@).take(i as int),
                    views_of(sorted@)[i as int],
                );
            }
            i = i + 1;
        }
        proof {
            assert(views_of(sorted@).take(n as int) =~= views_of(sorted@));
        }
        let kindv = tree_kind_vec();
        let obj = crate::object::serialize_object(kindv.as_slice(), payload.as_slice());
        let mut w = crate::object::ObjectWriter::new();
        w.write(obj.as_slice());
        proof {
            assert(w@ =~= crate::object::obj_bytes(
                tree_kind(),
                entries_bytes(sorted_entries_of(views0)),
            ));
        }
        w.finalize()
    }
}

} // verus!
