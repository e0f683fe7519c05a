//! Commit objects: the textual payload naming a tree, an optional parent,
//! author and committer lines with a timestamp, and the message.
use vstd::prelude::*;
use vstd::string::StringExecFns;
use vstd::utf8::encode_utf8;
use crate::ext::deflate_of;
use crate::ext::inflate_of;
use crate::hexnum::dec_bytes;
use crate::hexnum::dec_chars;
use crate::hexnum::lemma_dec_bytes_shape;
use crate::hexnum::lemma_dec_chars_bytes;
use crate::hexnum::u64_to_dec;
use crate::object::commit_kind;
use crate::object::commit_kind_vec;
use crate::object::obj_bytes;
use crate::object::object_id;
use crate::object::serialize_object;
use crate::object::ObjectWriter;
use crate::object::WrittenObject;
use crate::strbytes::ascii_string;
use crate::strbytes::chars_of_ascii;

verus! {

/// The mathematical shape of a commit: the referenced tree, an optional
/// parent, the author's name and address, the timestamp in seconds since
/// the Unix epoch, and the message.
#[verifier::ext_equal]
pub ghost struct CommitInfoV {
    pub tree: Seq<char>,
    pub parent: Option<Seq<char>>,
    pub author_name: Seq<char>,
    pub author_email: Seq<char>,
    pub stamp: u64,
    pub message: Seq<char>,
}

/// A commit's fields, gathered before writing.
pub struct CommitInfo {
    tree_sha: String,
    parent_sha: Option<String>,
    author_name: String,
    author_email: String,
    stamp_secs: u64,
    commit_message: String,
}

impl View for CommitInfo {
    type V = CommitInfoV;

    closed spec fn view(&self) -> CommitInfoV {
        CommitInfoV {
            tree: self.tree_sha@,
            parent: match self.parent_sha {
                Some(p) => Some(p@),
                None => None,
            },
            author_name: self.author_name@,
            author_email: self.author_email@,
            stamp: self.stamp_secs,
            message: self.commit_message@,
        }
    }
}

/// The textual payload of a commit: the tree line, the parent line when a
/// parent is given, author and committer lines each ending in the
/// timestamp and the fixed zone `+0000`, a blank line, and the message
/// with a final newline.
pub open spec fn commit_text(v: CommitInfoV) -> Seq<char> {
    "tree "@ + v.tree + "\n"@ + (match v.parent {
        Some(p) => "parent "@ + p + "\n"@,
        None => Seq::<char>::empty(),
    }) + "author "@ + v.author_name + " <"@ + v.author_email + "> "@ + dec_chars(v.stamp as nat)
        + " +0000\n"@ + "committer "@ + v.author_name + " <"@ + v.author_email + "> "@ + dec_chars(
        v.stamp as nat,
    ) + " +0000\n"@ + "\n"@ + v.message + "\n"@
}

/// Writes `n` in decimal, as a string.
fn u64_to_dec_string(n: u64) -> (r: String)
    ensures
        r@ =~= dec_chars(n as nat),
{
    let bytes = u64_to_dec(n);
    proof {
        lemma_dec_bytes_shape(n as nat);
        assert(forall|i: int|
            0 <= i < bytes@.len() ==> crate::hexnum::is_dec_byte(#[trigger] bytes@[i]));
        assert(crate::strbytes::all_ascii_bytes(bytes@));
    }
    let r = ascii_string(bytes);
    proof {
        lemma_dec_chars_bytes(n as nat);
        assert(r@ =~= chars_of_ascii(dec_bytes(n as nat)));
        assert(r@ =~= dec_chars(n as nat));
    }
    r
}

impl CommitInfo {
    /// Gathers a commit's fields.  The timestamp is supplied by the
    /// caller, in seconds since the Unix epoch.
    pub fn new(
        sha: &str,
        parent_sha: Option<&str>,
        name: &str,
        mail: &str,
        message: &str,
        stamp_secs: u64,
    ) -> (r: CommitInfo)
        ensures
            r@ == (CommitInfoV {
                tree: sha@,
                parent: match parent_sha {
                    Some(p) => Some(p@),
                    None => None,
                },
                author_name: name@,
                author_email: mail@,
                stamp: stamp_secs,
                message: message@,
            }),
    {
        let r = CommitInfo {
            tree_sha: sha.to_owned(),
            parent_sha: match parent_sha {
                Some(p) => Some(p.to_owned()),
                None => None,
            },
            author_name: name.to_owned(),
            author_email: mail.to_owned(),
            stamp_secs,
            commit_message: message.to_owned(),
        };
        proof {
            assert(r@ =~= (CommitInfoV {
                tree: sha@,
                parent: match parent_sha {
                    Some(p) => Some(p@),
                    None => None,
                },
                author_name: name@,
                author_email: mail@,
                stamp: stamp_secs,
                message: message@,
            }));
        }
        r
    }

    /// The commit's textual payload.
    pub fn into_string(self) -> (r: String)
        ensures
            r@ =~= commit_text(self@),
    {
        let ghost v = self@;
        let mut s = String::new();
        s.append("tree ");
        s.append(self.tree_sha.as_str());
        s.append("\n");
        match &self.parent_sha {
            Some(p) => {
                s.append("parent ");
                s.append(p.as_str());
                s.append("\n");
            },
            None => {},
        }
        let stamp = u64_to_dec_string(self.stamp_secs);
        s.append("author ");
        s.append(self.author_name.as_str());
        s.append(" <");
        s.append(self.author_email.as_str());
        s.append("> ");
        s.append(stamp.as_str());
        s.append(" +0000\n");
        s.append("committer ");
        s.append(self.author_name.as_str());
        s.append(" <");
        s.append(self.author_email.as_str());
        s.append("> ");
        s.append(stamp.as_str());
        s.append(" +0000\n");
        s.append("\n");
        s.append(self.commit_message.as_str());
        s.append("\n");
        proof {
            assert(s@ =~= commit_text(v));
        }
        s
    }
}

impl crate::object::ObjectManipulator {
    /// Serializes a commit object: the identifier and compressed bytes
    /// are functions of the commit's fields alone.
    pub fn write_commit(info: CommitInfo) -> (r: WrittenObject)
        ensures
            r.id@ =~= object_id(commit_kind(), encode_utf8(commit_text(info@))),
            r.id@.len() == 40,
            r.compressed@ == deflate_of(obj_bytes(commit_kind(), encode_utf8(commit_text(info@)))),
            inflate_of(r.compressed@) == Some(
                obj_bytes(commit_kind(), encode_utf8(commit_text(info@))),
            ),
    {
        let ghost v = info@;
        let text = info.into_string();
        let kindv = commit_kind_vec();
        let obj = serialize_object(kindv.as_slice(), text.as_str().as_bytes());
        let mut w = ObjectWriter::new();
        w.write(obj.as_slice());
        proof {
            assert(text@ == commit_text(v));
            assert(w@ =~= obj_bytes(commit_kind(), encode_utf8(commit_text(v))));
        }
        w.finalize()
    }
}

} // verus!
