//! Object identifiers: syntactic validation of full and partial names,
//! the split into directory prefix and filename remainder, and resolution
//! of a partial name among the stored candidates.
use vstd::prelude::*;
use vstd::utf8::char_u32_cast;
use vstd::utf8::encode_utf8;
use vstd::utf8::is_ascii_chars;
use crate::errors::GitError;
use crate::strbytes::all_ascii_bytes;
use crate::strbytes::ascii_string;
use crate::strbytes::lemma_ascii_bytes_chars;
use crate::strbytes::lemma_ascii_encode;
use crate::strbytes::lemma_ascii_prefix;

verus! {

/// A character admitted in a partial identifier: a decimal digit or any
/// lowercase letter.  (Letters beyond `f` never name an object, but the
/// validator is deliberately this lenient.)
pub open spec fn is_id_char(c: char) -> bool {
    ('0' <= c && c <= '9') || ('a' <= c && c <= 'z')
}

/// A valid partial identifier: four to forty admitted characters.
pub open spec fn valid_partial_id(s: Seq<char>) -> bool {
    4 <= s.len() <= 40 && forall|i: int| 0 <= i < s.len() ==> is_id_char(#[trigger] s[i])
}

/// ASCII uppercase letters mapped to lowercase; everything else kept.
pub open spec fn lower_char(c: char) -> char {
    if 'A' <= c && c <= 'Z' {
        (((c as u32) + 32) as u8) as char
    } else {
        c
    }
}

/// A string lowercased character by character.
pub open spec fn lower_of(s: Seq<char>) -> Seq<char> {
    s.map_values(|c: char| lower_char(c))
}

/// Reports whether `name` is a valid partial identifier.
pub fn valid_partial_sha1_name(name: &str) -> (r: bool)
    ensures
        r == valid_partial_id(name@),
{
    let b = name.as_bytes();
    let n: usize = b.len();
    if n < 4 || n > 40 {
        proof {
            if valid_partial_id(name@) {
                assert forall|i: int| 0 <= i < name@.len() implies ('\0' <= #[trigger] name@[i]
                    <= '\u{7f}') by {
                    assert(is_id_char(name@[i]));
                    char_u32_cast(name@[i], name@[i] as u32);
                }
                lemma_ascii_encode(name@);
                assert(b@.len() == name@.len());
            }
        }
        return false;
    }
    let mut i: usize = 0;
    let mut ok = true;
    while i < n
        invariant
            0 <= i <= n == b@.len(),
            b@ == encode_utf8(name@),
            ok == (forall|j: int|
                0 <= j < i ==> ((0x30 <= #[trigger] b@[j] && b@[j] <= 0x39) || (0x61 <= b@[j]
                    && b@[j] <= 0x7a))),
        decreases n - i,
    {
        let x: u8 = *vstd::slice::slice_index_get(b, i);
        if !((0x30 <= x && x <= 0x39) || (0x61 <= x && x <= 0x7a)) {
            ok = false;
        }
        i = i + 1;
    }
    proof {
        if ok {
            assert(all_ascii_bytes(b@));
            lemma_ascii_bytes_chars(name@);
            assert(name@.len() == b@.len());
            assert forall|j: int| 0 <= j < name@.len() implies is_id_char(
                #[trigger] name@[j],
            ) by {
                assert(name@[j] == b@[j] as char);
            }
        } else {
            if valid_partial_id(name@) {
                assert forall|i2: int| 0 <= i2 < name@.len() implies ('\0'
                    <= #[trigger] name@[i2] <= '\u{7f}') by {
                    assert(is_id_char(name@[i2]));
                    char_u32_cast(name@[i2], name@[i2] as u32);
                }
                lemma_ascii_encode(name@);
                assert forall|j: int| 0 <= j < b@.len() implies ((0x30 <= #[trigger] b@[j]
                    && b@[j] <= 0x39) || (0x61 <= b@[j] && b@[j] <= 0x7a)) by {
                    assert(b@[j] == name@[j] as u8);
                    assert(is_id_char(name@[j]));
                }
            }
        }
    }
    ok
}

/// Lowercases and validates an identifier, and splits it for the object
/// directory: the first two characters name the fan-out directory, the
/// remainder begins the filename.  An identifier that does not lowercase
/// to a valid partial name is rejected.
pub fn get_object_path(object: &str) -> (r: Result<(String, String), GitError>)
    ensures
        match r {
            Ok(pr) => valid_partial_id(lower_of(object@)) && pr.0@ == lower_of(object@).take(2)
                && pr.1@ == lower_of(object@).skip(2),
            Err(e) => e == GitError::InvalidIdentifier && !valid_partial_id(lower_of(object@)),
        },
{
    let b = object.as_bytes();
    let n: usize = b.len();
    let ghost low = lower_of(object@);
    let mut lowered: Vec<u8> = Vec::new();
    let mut i: usize = 0;
    let mut ok = true;
    while i < n
        invariant
            0 <= i <= n == b@.len(),
            b@ == encode_utf8(object@),
            lowered@.len() == i,
            forall|j: int|
                0 <= j < i ==> #[trigger] lowered@[j] == (if 0x41 <= b@[j] && b@[j] <= 0x5a {
                    (b@[j] + 32) as u8
                } else {
                    b@[j]
                }),
            ok == (forall|j: int|
                0 <= j < i ==> ((0x30 <= #[trigger] lowered@[j] && lowered@[j] <= 0x39) || (0x61
                    <= lowered@[j] && lowered@[j] <= 0x7a))),
        decreases n - i,
    {
        let x: u8 = *vstd::slice::slice_index_get(b, i);
        let lx: u8 = if 0x41 <= x && x <= 0x5a {
            x + 32
        } else {
            x
        };
        let good = (0x30 <= lx && lx <= 0x39) || (0x61 <= lx && lx <= 0x7a);
        let ghost prev = lowered@;
        let ghost ok_prev = ok;
        if !good {
            ok = false;
        }
        lowered.push(lx);
        proof {
            assert(lowered@ =~= prev.push(lx));
            assert(forall|j: int| 0 <= j < i ==> #[trigger] lowered@[j] == prev[j]);
            assert(lowered@[i as int] == lx);
            if ok_prev && good {
                assert(forall|j: int|
                    0 <= j < i + 1 ==> ((0x30 <= #[trigger] lowered@[j] && lowered@[j] <= 0x39) || (
                    0x61 <= lowered@[j] && lowered@[j] <= 0x7a)));
            } else if !ok_prev {
                let w = choose|j: int|
                    0 <= j < i && !((0x30 <= #[trigger] prev[j] && prev[j] <= 0x39) || (0x61
                        <= prev[j] && prev[j] <= 0x7a));
                assert(!((0x30 <= lowered@[w] && lowered@[w] <= 0x39) || (0x61 <= lowered@[w]
                    && lowered@[w] <= 0x7a)));
            }
        }
        i = i + 1;
    }
    if !ok || n < 4 || n > 40 {
        proof {
            lemma_lowered_reject(object@, b@, lowered@, ok, n as int);
        }
        return Err(GitError::InvalidIdentifier);
    }
    proof {
        assert(all_ascii_bytes(b@)) by {
            assert forall|j: int| 0 <= j < b@.len() implies #[trigger] b@[j] < 0x80 by {
                assert((0x30 <= lowered@[j] && lowered@[j] <= 0x39) || (0x61 <= lowered@[j]
                    && lowered@[j] <= 0x7a));
            }
        }
        lemma_ascii_bytes_chars(object@);
        assert forall|j: int| 0 <= j < low.len() implies #[trigger] low[j] == lowered@[j] as char
            && is_id_char(low[j]) by {
            assert(object@[j] == b@[j] as char);
            assert(low[j] == lower_char(object@[j]));
            char_u32_cast(object@[j], b@[j] as u32);
            if 0x41 <= b@[j] && b@[j] <= 0x5a {
                assert(low[j] == ((b@[j] + 32) as u8) as char);
            }
        }
        assert(low.len() == n);
        assert(valid_partial_id(low));
        assert(all_ascii_bytes(lowered@));
    }
    let dir = crate::bytesx::subvec(&lowered, 0, 2);
    let rest = crate::bytesx::subvec(&lowered, 2, n);
    proof {
        assert(all_ascii_bytes(dir@));
        assert(all_ascii_bytes(rest@));
    }
    let dirs = ascii_string(dir);
    let rests = ascii_string(rest);
    proof {
        assert(dirs@ =~= low.take(2));
        assert(rests@ =~= low.skip(2));
    }
    Ok((dirs, rests))
}

/// When the byte scan rejects an identifier, its lowercased form is not a
/// valid partial name.
proof fn lemma_lowered_reject(
    chars: Seq<char>,
    b: Seq<u8>,
    lowered: Seq<u8>,
    ok: bool,
    n: int,
)
    requires
        b == encode_utf8(chars),
        n == b.len(),
        lowered.len() == n,
        forall|j: int|
            0 <= j < n ==> #[trigger] lowered[j] == (if 0x41 <= b[j] && b[j] <= 0x5a {
                (b[j] + 32) as u8
            } else {
                b[j]
            }),
        ok == (forall|j: int|
            0 <= j < n ==> ((0x30 <= #[trigger] lowered[j] && lowered[j] <= 0x39) || (0x61
                <= lowered[j] && lowered[j] <= 0x7a))),
        !ok || n < 4 || n > 40,
    ensures
        !valid_partial_id(lower_of(chars)),
{
    let low = lower_of(chars);
    if valid_partial_id(low) {
        // Valid identifiers are ASCII, so the bytes mirror the characters.
        assert(low.len() == chars.len());
        assert forall|i: int| 0 <= i < chars.len() implies ('\0' <= #[trigger] chars[i]
            <= '\u{7f}') by {
            assert(is_id_char(low[i]));
            assert(low[i] == lower_char(chars[i]));
            if 'A' <= chars[i] && chars[i] <= 'Z' {
            } else {
                assert(low[i] == chars[i]);
                char_u32_cast(chars[i], chars[i] as u32);
            }
        }
        lemma_ascii_encode(chars);
        assert(b.len() == chars.len());
        assert(4 <= n <= 40);
        assert forall|j: int| 0 <= j < n implies ((0x30 <= #[trigger] lowered[j] && lowered[j]
            <= 0x39) || (0x61 <= lowered[j] && lowered[j] <= 0x7a)) by {
            assert(b[j] == chars[j] as u8);
            char_u32_cast(chars[j], chars[j] as u32);
            assert(low[j] == lower_char(chars[j]));
            assert(is_id_char(low[j]));
            if 'A' <= chars[j] && chars[j] <= 'Z' {
                assert(lowered[j] == (b[j] + 32) as u8);
                assert(low[j] == ((chars[j] as u32 + 32) as u8) as char);
                assert(lowered[j] == low[j] as u8);
            } else {
                assert(lowered[j] == b[j]);
                assert(low[j] == chars[j]);
            }
        }
        assert(ok);
        assert(false);
    }
}

/// The candidates among `names` that `rest` begins: kept in their given
/// order.
pub open spec fn matching_names(rest: Seq<char>, names: Seq<Seq<char>>) -> Seq<Seq<char>>
    decreases names.len(),
{
    if names.len() == 0 {
        Seq::empty()
    } else {
        let m = matching_names(rest, names.drop_last());
        if rest.is_prefix_of(names.last()) {
            m.push(names.last())
        } else {
            m
        }
    }
}

/// Resolves a partial name's remainder among the filenames of the fan-out
/// directory: succeeds exactly when one candidate extends it.
pub fn resolve_among(rest: &str, names: &Vec<String>) -> (r: Result<String, GitError>)
    requires
        is_ascii_chars(rest@),
    ensures
        match r {
            Ok(s) => matching_names(rest@, names.deep_view()).len() == 1 && s@ == matching_names(
                rest@,
                names.deep_view(),
            )[0],
            Err(e) => e == GitError::AmbiguousOrUnknownObject && matching_names(
                rest@,
                names.deep_view(),
            ).len() != 1,
        },
{
    let ghost dv = names.deep_view();
    let n: usize = names.len();
    let mut i: usize = 0;
    let mut count: usize = 0;
    let mut best: Option<String> = None;
    proof {
        assert(dv.len() == names@.len());
        assert(matching_names(rest@, dv.take(0)) =~= Seq::<Seq<char>>::empty());
    }
    while i < n
        invariant
            0 <= i <= n == dv.len(),
            dv =~= names.deep_view(),
            n == names@.len(),
            forall|j: int| 0 <= j < dv.len() ==> #[trigger] dv[j] == names@[j]@,
            count <= i,
            count == matching_names(rest@, dv.take(i as int)).len(),
            count > 0 ==> best is Some && best->Some_0@ == matching_names(
                rest@,
                dv.take(i as int),
            ).last(),
            is_ascii_chars(rest@),
        decreases n - i,
    {
        let cand: &String = &names[i];
        let is_match = crate::bytesx::bytes_prefix(rest.as_bytes(), cand.as_str().as_bytes());
        proof {
            lemma_ascii_prefix(rest@, cand@);
            assert(cand@ == dv[i as int]);
            assert(dv.take(i + 1).drop_last() =~= dv.take(i as int));
            assert(dv.take(i + 1).last() == dv[i as int]);
        }
        if is_match {
            count = count + 1;
            best = Some(cand.clone());
        }
        i = i + 1;
    }
    proof {
        assert(dv.take(n as int) =~= dv);
    }
    if count == 1 {
        match best {
            Some(s) => {
                proof {
                    let m = matching_names(rest@, dv);
                    assert(m.len() == 1);
                    assert(m.last() == m[0]);
                }
                Ok(s)
            },
            None => {
                proof {
                    assert(false);
                }
                Err(GitError::AmbiguousOrUnknownObject)
            },
        }
    } else {
        Err(GitError::AmbiguousOrUnknownObject)
    }
}

} // verus!
