//! Serialized objects: the `<kind> <length>\0` header, the streaming
//! writer that names an object by the digest of its uncompressed bytes,
//! and the blob operations.
use vstd::prelude::*;
use crate::bytesx::find_byte;
use crate::bytesx::find_byte_from;
use crate::bytesx::lemma_find_byte_absent;
use crate::bytesx::lemma_find_byte_is;
use crate::bytesx::bytes_eq;
use crate::bytesx::subvec;
use crate::errors::GitError;
use crate::ext::deflate_of;
use crate::ext::inflate_of;
use crate::ext::sha1_digest;
use crate::ext::sha1_of;
use crate::ext::zlib_compress;
use crate::ext::zlib_decompress;
use crate::hexnum::dec_bytes;
use crate::hexnum::dec_val;
use crate::hexnum::hex_of;
use crate::hexnum::is_dec_seq;
use crate::hexnum::lemma_dec_bytes_shape;
use crate::hexnum::lemma_dec_val_of_dec_bytes;
use crate::hexnum::lemma_hex_of_shape;
use crate::hexnum::parse_dec;
use crate::hexnum::u64_to_dec;
use crate::strbytes::bytes_to_hex;

verus! {

/// The ASCII bytes of the kind name `blob`.
pub open spec fn blob_kind() -> Seq<u8> {
    seq![0x62u8, 0x6cu8, 0x6fu8, 0x62u8]
}

/// The ASCII bytes of the kind name `tree`.
pub open spec fn tree_kind() -> Seq<u8> {
    seq![0x74u8, 0x72u8, 0x65u8, 0x65u8]
}

/// The ASCII bytes of the kind name `commit`.
pub open spec fn commit_kind() -> Seq<u8> {
    seq![0x63u8, 0x6fu8, 0x6du8, 0x6du8, 0x69u8, 0x74u8]
}

/// True of the three kind names.  Each is nonempty and holds neither a
/// space nor a NUL, which keeps the header unambiguous.
pub open spec fn is_kind(kind: Seq<u8>) -> bool {
    kind == blob_kind() || kind == tree_kind() || kind == commit_kind()
}

/// The serialized header: kind name, one space, the payload length as a
/// decimal numeral, one NUL.
pub open spec fn obj_header(kind: Seq<u8>, len: nat) -> Seq<u8> {
    kind + seq![0x20u8] + dec_bytes(len) + seq![0u8]
}

/// The full serialized form of an object: header, then payload.
pub open spec fn obj_bytes(kind: Seq<u8>, payload: Seq<u8>) -> Seq<u8> {
    obj_header(kind, payload.len()) + payload
}

/// The identifier of an object: the lowercase hexadecimal form of the
/// digest of its uncompressed serialized bytes.
pub open spec fn object_id(kind: Seq<u8>, payload: Seq<u8>) -> Seq<char> {
    hex_of(sha1_of(obj_bytes(kind, payload)))
}

/// Splits serialized bytes back into kind name and payload: the header
/// runs to the first NUL, the kind to the first space in the header, the
/// decimal numeral between them gives the payload length, and exactly that
/// many bytes after the NUL form the payload.  Surplus trailing bytes are
/// ignored.
pub open spec fn parse_obj(data: Seq<u8>) -> Option<(Seq<u8>, Seq<u8>)> {
    let z = find_byte(data, 0);
    if z < 0 {
        None
    } else {
        let header = data.take(z);
        let sp = find_byte(header, 0x20);
        if sp < 0 {
            None
        } else {
            let kind = header.take(sp);
            let lenb = header.skip(sp + 1);
            if lenb.len() == 0 || !is_dec_seq(lenb) || dec_val(lenb) > usize::MAX as int {
                None
            } else if data.len() - z - 1 < dec_val(lenb) {
                None
            } else {
                Some((kind, data.subrange(z + 1, z + 1 + dec_val(lenb))))
            }
        }
    }
}

/// Parsing inverts serialization: for any kind name without NUL or space
/// and any payload a machine word can measure, the serialized object
/// parses back to exactly that kind and payload.
pub proof fn lemma_parse_obj_roundtrip(kind: Seq<u8>, payload: Seq<u8>)
    requires
        kind.len() > 0,
        forall|i: int| 0 <= i < kind.len() ==> #[trigger] kind[i] != 0 && kind[i] != 0x20,
        payload.len() <= usize::MAX,
    ensures
        parse_obj(obj_bytes(kind, payload)) == Some((kind, payload)),
{
    let n = payload.len();
    let d = dec_bytes(n);
    lemma_dec_bytes_shape(n);
    lemma_dec_val_of_dec_bytes(n);
    let header = kind + seq![0x20u8] + d;
    let data = obj_bytes(kind, payload);
    assert(data =~= header + seq![0u8] + payload);
    let hl = header.len() as int;
    assert forall|j: int| 0 <= j < hl implies data[j] != 0 by {
        if j < kind.len() {
            assert(header[j] == kind[j]);
        } else if j == kind.len() {
            assert(header[j] == 0x20);
        } else {
            assert(header[j] == d[j - kind.len() - 1]);
            assert(is_dec_seq(d));
            assert(crate::hexnum::is_dec_byte(d[j - kind.len() - 1]));
        }
        assert(data[j] == header[j]);
    }
    assert(data[hl] == 0);
    lemma_find_byte_is(data, 0, hl);
    assert(data.take(hl) =~= header);
    assert forall|j: int| 0 <= j < kind.len() implies header[j] != 0x20 by {
        assert(header[j] == kind[j]);
    }
    assert(header[kind.len() as int] == 0x20);
    lemma_find_byte_is(header, 0x20, kind.len() as int);
    assert(header.take(kind.len() as int) =~= kind);
    assert(header.skip(kind.len() as int + 1) =~= d);
    assert(d.len() > 0 && is_dec_seq(d) && dec_val(d) == n);
    assert(data.len() - hl - 1 == n);
    assert(data.subrange(hl + 1, hl + 1 + n) =~= payload);
}

/// The kind names qualify for the round trip above.
pub proof fn lemma_kind_bytes(kind: Seq<u8>)
    requires
        is_kind(kind),
    ensures
        kind.len() > 0,
        forall|i: int| 0 <= i < kind.len() ==> #[trigger] kind[i] != 0 && kind[i] != 0x20,
{
    if kind == blob_kind() {
        assert(forall|i: int|
            0 <= i < blob_kind().len() ==> #[trigger] blob_kind()[i] != 0 && blob_kind()[i]
                != 0x20);
    } else if kind == tree_kind() {
        assert(forall|i: int|
            0 <= i < tree_kind().len() ==> #[trigger] tree_kind()[i] != 0 && tree_kind()[i]
                != 0x20);
    } else {
        assert(forall|i: int|
            0 <= i < commit_kind().len() ==> #[trigger] commit_kind()[i] != 0 && commit_kind()[i]
                != 0x20);
    }
}

/// The kind name `blob`, as a vector.
pub fn blob_kind_vec() -> (r: Vec<u8>)
    ensures
        r@ =~= blob_kind(),
{
    let mut v: Vec<u8> = Vec::new();
    v.push(0x62);
    v.push(0x6c);
    v.push(0x6f);
    v.push(0x62);
    v
}

/// The kind name `tree`, as a vector.
pub fn tree_kind_vec() -> (r: Vec<u8>)
    ensures
        r@ =~= tree_kind(),
{
    let mut v: Vec<u8> = Vec::new();
    v.push(0x74);
    v.push(0x72);
    v.push(0x65);
    v.push(0x65);
    v
}

/// The kind name `commit`, as a vector.
pub fn commit_kind_vec() -> (r: Vec<u8>)
    ensures
        r@ =~= commit_kind(),
{
    let mut v: Vec<u8> = Vec::new();
    v.push(0x63);
    v.push(0x6f);
    v.push(0x6d);
    v.push(0x6d);
    v.push(0x69);
    v.push(0x74);
    v
}

/// Serializes an object: header for `kind` and the payload's length, then
/// the payload.
pub fn serialize_object(kind: &[u8], payload: &[u8]) -> (r: Vec<u8>)
    ensures
        r@ =~= obj_bytes(kind@, payload@),
{
    let mut v: Vec<u8> = Vec::new();
    v.extend_from_slice(kind);
    v.push(0x20);
    let mut d = u64_to_dec(payload.len() as u64);
    v.append(&mut d);
    v.push(0);
    v.extend_from_slice(payload);
    v
}

/// A finished object: its identifier and the compressed bytes to store at
/// the path the identifier names.
pub struct WrittenObject {
    /// Forty lowercase hexadecimal characters.
    pub id: String,
    /// The zlib-compressed serialized form.
    pub compressed: Vec<u8>,
}

/// A sink that accumulates an object's uncompressed serialized bytes.
///
/// Finishing it yields the identifier (the digest of everything written)
/// and the compressed bytes.  Durable publication — writing the compressed
/// bytes to a temporary sibling of the destination and renaming it into
/// place, or removing it when abandoned — is the caller's part.
pub struct ObjectWriter {
    data: Vec<u8>,
}

impl View for ObjectWriter {
    type V = Seq<u8>;

    closed spec fn view(&self) -> Seq<u8> {
        self.data@
    }
}

impl ObjectWriter {
    /// A fresh sink with nothing written yet.
    pub fn new() -> (w: Self)
        ensures
            w@ =~= Seq::<u8>::empty(),
    {
        ObjectWriter { data: Vec::new() }
    }

    /// Appends bytes to the stream.
    pub fn write(&mut self, buf: &[u8])
        ensures
            final(self)@ =~= old(self)@ + buf@,
    {
        self.data.extend_from_slice(buf);
    }

    /// Closes the stream: the identifier is the hexadecimal digest of the
    /// bytes written, and the compressed form decompresses back to them.
    pub fn finalize(self) -> (r: WrittenObject)
        ensures
            r.id@ =~= hex_of(sha1_of(self@)),
            r.id@.len() == 40,
            r.compressed@ == deflate_of(self@),
            inflate_of(r.compressed@) == Some(self@),
    {
        let digest = sha1_digest(self.data.as_slice());
        let id = bytes_to_hex(digest.as_slice());
        proof {
            lemma_hex_of_shape(sha1_of(self.data@));
        }
        let compressed = zlib_compress(self.data.as_slice());
        WrittenObject { id, compressed }
    }
}

/// Splits decompressed object bytes into kind name and payload, following
/// `parse_obj` exactly; any malformed header is a corrupt object.
pub fn split_object(data: &Vec<u8>) -> (r: Result<(Vec<u8>, Vec<u8>), GitError>)
    ensures
        match r {
            Ok(kp) => parse_obj(data@) == Some((kp.0@, kp.1@)),
            Err(e) => e == GitError::CorruptObject && parse_obj(data@) is None,
        },
{
    let z: usize = match find_byte_from(data, 0, 0) {
        Some(z) => z,
        None => {
            proof {
                assert(data@.skip(0) =~= data@);
            }
            return Err(GitError::CorruptObject);
        },
    };
    proof {
        assert(data@.skip(0) =~= data@);
        assert(find_byte(data@, 0) == z);
    }
    let ghost header = data@.take(z as int);
    let sp_opt = find_byte_from(data, 0, 0x20);
    let sp_ok: bool = match sp_opt {
        Some(s) => s < z,
        None => false,
    };
    if !sp_ok {
        // No space before the NUL: the header has none.
        proof {
            assert(forall|j: int| 0 <= j < header.len() ==> header[j] != 0x20);
            lemma_find_byte_absent(header, 0x20);
        }
        return Err(GitError::CorruptObject);
    }
    let sp: usize = match sp_opt {
        Some(s) => s,
        None => {
            proof {
                assert(false);
            }
            0
        },
    };
    proof {
        assert(forall|j: int| 0 <= j < sp ==> header[j] != 0x20);
        assert(header[sp as int] == 0x20);
        lemma_find_byte_is(header, 0x20, sp as int);
    }
    let kind = subvec(data, 0, sp);
    proof {
        assert(kind@ =~= header.take(sp as int));
    }
    let lenb = vstd::slice::slice_subrange(data.as_slice(), sp + 1, z);
    proof {
        assert(lenb@ =~= header.skip(sp + 1));
    }
    let n: usize = match parse_dec(lenb) {
        Some(n) => n,
        None => {
            return Err(GitError::CorruptObject);
        },
    };
    let rest: usize = data.len() - z - 1;
    if rest < n {
        return Err(GitError::CorruptObject);
    }
    let payload = subvec(data, z + 1, z + 1 + n);
    Ok((kind, payload))
}

/// An empty placeholder: the operations below are its associated
/// functions, as stateless as the repository format itself.
pub struct ObjectManipulator {}

impl ObjectManipulator {
    /// Computes the identifier `contents` would be stored under as a blob,
    /// without persisting anything.  It returns exactly the identifier
    /// `write_blob` returns for the same bytes.
    pub fn hash_blob(contents: &[u8]) -> (r: String)
        ensures
            r@ =~= object_id(blob_kind(), contents@),
            r@.len() == 40,
    {
        let kind = blob_kind_vec();
        let obj = serialize_object(kind.as_slice(), contents);
        let digest = sha1_digest(obj.as_slice());
        proof {
            lemma_hex_of_shape(sha1_of(obj@));
        }
        bytes_to_hex(digest.as_slice())
    }

    /// Serializes `contents` as a blob object: the identifier is the one
    /// `hash_blob` computes, and the compressed bytes decompress back to
    /// the serialized form.
    pub fn write_blob(contents: &[u8]) -> (r: WrittenObject)
        ensures
            r.id@ =~= object_id(blob_kind(), contents@),
            r.id@.len() == 40,
            r.compressed@ == deflate_of(obj_bytes(blob_kind(), contents@)),
            inflate_of(r.compressed@) == Some(obj_bytes(blob_kind(), contents@)),
    {
        let kind = blob_kind_vec();
        let obj = serialize_object(kind.as_slice(), contents);
        let mut w = ObjectWriter::new();
        w.write(obj.as_slice());
        proof {
            assert(w@ =~= obj_bytes(blob_kind(), contents@));
        }
        w.finalize()
    }

    /// What reading a stored file as a blob yields: the payload when the
    /// file holds a blob, nothing when it holds a tree or commit, no
    /// answer when the file is corrupt.
    pub open spec fn read_blob_spec(file: Seq<u8>) -> Option<Option<Seq<u8>>> {
        match inflate_of(file) {
            None => None,
            Some(o) => match parse_obj(o) {
                None => None,
                Some(kp) => if kp.0 == blob_kind() {
                    Some(Some(kp.1))
                } else if kp.0 == tree_kind() || kp.0 == commit_kind() {
                    Some(None)
                } else {
                    None
                },
            },
        }
    }

    /// Reads a stored object file as a blob: decompresses, parses the
    /// header, and returns the payload for a blob, nothing for a tree or
    /// commit, and a corrupt-object error otherwise.
    pub fn read_blob(file: &[u8]) -> (r: Result<Option<Vec<u8>>, GitError>)
        ensures
            match r {
                Ok(Some(v)) => Self::read_blob_spec(file@) == Some(Some(v@)),
                Ok(None) => Self::read_blob_spec(file@) == Some(None::<Seq<u8>>),
                Err(e) => e == GitError::CorruptObject && Self::read_blob_spec(file@) is None,
            },
    {
        let data: Vec<u8> = match zlib_decompress(file) {
            Some(d) => d,
            None => {
                return Err(GitError::CorruptObject);
            },
        };
        let (kind, payload) = match split_object(&data) {
            Ok(kp) => kp,
            Err(e) => {
                return Err(e);
            },
        };
        let blob_k = blob_kind_vec();
        if bytes_eq(kind.as_slice(), blob_k.as_slice()) {
            return Ok(Some(payload));
        }
        let tree_k = tree_kind_vec();
        let commit_k = commit_kind_vec();
        if bytes_eq(kind.as_slice(), tree_k.as_slice()) || bytes_eq(
            kind.as_slice(),
            commit_k.as_slice(),
        ) {
            return Ok(None);
        }
        Err(GitError::CorruptObject)
    }
}

} // verus!
