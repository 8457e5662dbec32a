//! Lossless encoding of a working-directory-relative path into a storage
//! location name: path separators are encoded so that the name holds no
//! separator, the mapping is reversible, and two distinct paths never
//! collide.

use vstd::prelude::*;
use vstd::slice::slice_index_get;

verus! {

/// The path separator byte, `/`.
pub const SEPARATOR: u8 = 47;

/// The escape byte, `_`.
pub const ESCAPE: u8 = 95;

/// The byte standing for an escaped separator, `s`.
pub const SEPARATOR_MARK: u8 = 115;

/// The encoding of one path byte: the separator and the escape byte become
/// two-byte escape pairs, every other byte stands for itself.
pub open spec fn encode_byte(b: u8) -> Seq<u8> {
    if b == SEPARATOR {
        seq![ESCAPE, SEPARATOR_MARK]
    } else if b == ESCAPE {
        seq![ESCAPE, ESCAPE]
    } else {
        seq![b]
    }
}

/// The encoding of a whole path.
pub open spec fn encoded(path: Seq<u8>) -> Seq<u8>
    decreases path.len(),
{
    if path.len() == 0 {
        Seq::empty()
    } else {
        encode_byte(path[0]) + encoded(path.drop_first())
    }
}

/// The decoding of a storage location name; `None` when the name is not a
/// well-formed encoding (a dangling or unknown escape pair).
pub open spec fn decoded(name: Seq<u8>) -> Option<Seq<u8>>
    decreases name.len(),
{
    if name.len() == 0 {
        Some(Seq::empty())
    } else if name[0] == ESCAPE {
        if name.len() < 2 {
            None
        } else if name[1] == ESCAPE {
            match decoded(name.skip(2)) {
                Some(t) => Some(seq![ESCAPE] + t),
                None => None,
            }
        } else if name[1] == SEPARATOR_MARK {
            match decoded(name.skip(2)) {
                Some(t) => Some(seq![SEPARATOR] + t),
                None => None,
            }
        } else {
            None
        }
    } else {
        match decoded(name.drop_first()) {
            Some(t) => Some(seq![name[0]] + t),
            None => None,
        }
    }
}

/// Encoding distributes over concatenation.
pub proof fn lemma_encoded_append(a: Seq<u8>, b: Seq<u8>)
    ensures
        encoded(a + b) == encoded(a) + encoded(b),
    decreases a.len(),
{
    if a.len() == 0 {
        assert(a + b =~= b);
        assert(encoded(a) + encoded(b) =~= encoded(b));
    } else {
        assert((a + b).drop_first() =~= a.drop_first() + b);
        lemma_encoded_append(a.drop_first(), b);
        assert(encode_byte((a + b)[0]) + (encoded(a.drop_first()) + encoded(b)) =~= (encode_byte(
            a[0],
        ) + encoded(a.drop_first())) + encoded(b));
    }
}

/// Decoding inverts encoding: the mapping is lossless.
pub proof fn lemma_decode_encode(path: Seq<u8>)
    ensures
        decoded(encoded(path)) == Some(path),
    decreases path.len(),
{
    if path.len() == 0 {
    } else {
        let rest = path.drop_first();
        lemma_decode_encode(rest);
        let e = encoded(path);
        assert(e == encode_byte(path[0]) + encoded(rest));
        if path[0] == SEPARATOR || path[0] == ESCAPE {
            assert(e.len() >= 2);
            assert(e[0] == ESCAPE);
            assert(e.skip(2) =~= encoded(rest));
            if path[0] == SEPARATOR {
                assert(e[1] == SEPARATOR_MARK);
                assert(seq![SEPARATOR] + rest =~= path);
            } else {
                assert(e[1] == ESCAPE);
                assert(seq![ESCAPE] + rest =~= path);
            }
        } else {
            assert(e[0] == path[0]);
            assert(e[0] != ESCAPE);
            assert(e.drop_first() =~= encoded(rest));
            assert(seq![path[0]] + rest =~= path);
        }
    }
}

/// Two distinct paths never encode to the same storage location name.
pub proof fn lemma_encode_injective(a: Seq<u8>, b: Seq<u8>)
    requires
        encoded(a) == encoded(b),
    ensures
        a == b,
{
    lemma_decode_encode(a);
    lemma_decode_encode(b);
}

/// A storage location name holds no path separator.
pub proof fn lemma_encoded_has_no_separator(path: Seq<u8>)
    ensures
        forall|i: int| 0 <= i < encoded(path).len() ==> encoded(path)[i] != SEPARATOR,
    decreases path.len(),
{
    if path.len() > 0 {
        lemma_encoded_has_no_separator(path.drop_first());
        let e = encoded(path);
        let eb = encode_byte(path[0]);
        assert forall|i: int| 0 <= i < e.len() implies e[i] != SEPARATOR by {
            if i >= eb.len() {
                assert(e[i] == encoded(path.drop_first())[i - eb.len()]);
            }
        }
    }
}

/// Encodes a path into its storage location name.
pub fn encode_path(path: &[u8]) -> (r: Vec<u8>)
    ensures
        r@ == encoded(path@),
{
    let mut r: Vec<u8> = Vec::new();
    let mut i: usize = 0;
    proof {
        assert(r@ =~= encoded(path@.take(0)));
    }
    while i < path.len()
        invariant
            i <= path@.len(),
            r@ == encoded(path@.take(i as int)),
        decreases path@.len() - i,
    {
        let b = *slice_index_get(path, i);
        let ghost prefix = path@.take(i as int);
        if b == SEPARATOR {
            r.push(ESCAPE);
            r.push(SEPARATOR_MARK);
        } else if b == ESCAPE {
            r.push(ESCAPE);
            r.push(ESCAPE);
        } else {
            r.push(b);
        }
        proof {
            lemma_encoded_append(prefix, seq![b]);
            assert(seq![b].drop_first() =~= Seq::<u8>::empty());
            assert(encoded(seq![b]) == encode_byte(b) + encoded(Seq::<u8>::empty()));
            assert(encode_byte(b) + Seq::<u8>::empty() =~= encode_byte(b));
            assert(path@.take(i + 1 as int) =~= prefix + seq![b]);
            assert(r@ =~= encoded(prefix) + encode_byte(b));
        }
        i = i + 1;
    }
    proof {
        assert(path@.take(path@.len() as int) =~= path@);
    }
    r
}

/// Decodes a storage location name back into the path it encodes; `None`
/// when the name is not a well-formed encoding.
pub fn decode_path(name: &[u8]) -> (r: Option<Vec<u8>>)
    ensures
        match r {
            Some(path) => decoded(name@) == Some(path@),
            None => decoded(name@) is None,
        },
{
    let mut out: Vec<u8> = Vec::new();
    let mut i: usize = 0;
    proof {
        assert(name@.skip(0) =~= name@);
        assert(out@ + name@ =~= name@);
    }
    while i < name.len()
        invariant
            i <= name@.len(),
            decoded(name@) == match decoded(name@.skip(i as int)) {
                Some(t) => Some(out@ + t),
                None => None::<Seq<u8>>,
            },
        decreases name@.len() - i,
    {
        let ghost suffix = name@.skip(i as int);
        let b = *slice_index_get(name, i);
        proof {
            assert(suffix[0] == b);
        }
        if b == ESCAPE {
            if i + 1 >= name.len() {
                proof {
                    assert(suffix.len() < 2);
                }
                return None;
            }
            let b2 = *slice_index_get(name, i + 1);
            proof {
                assert(suffix[1] == b2);
                assert(suffix.skip(2) =~= name@.skip(i + 2 as int));
            }
            if b2 == ESCAPE {
                let ghost prev = out@;
                out.push(ESCAPE);
                proof {
                    assert forall|t: Seq<u8>| (prev + (seq![ESCAPE] + t)) =~= (out@ + t) by {}
                }
                i = i + 2;
            } else if b2 == SEPARATOR_MARK {
                let ghost prev = out@;
                out.push(SEPARATOR);
                proof {
                    assert forall|t: Seq<u8>| (prev + (seq![SEPARATOR] + t)) =~= (out@ + t) by {}
                }
                i = i + 2;
            } else {
                return None;
            }
        } else {
            let ghost prev = out@;
            out.push(b);
            proof {
                assert(suffix.drop_first() =~= name@.skip(i + 1 as int));
                assert forall|t: Seq<u8>| (prev + (seq![b] + t)) =~= (out@ + t) by {}
            }
            i = i + 1;
        }
    }
    proof {
        assert(name@.skip(i as int) =~= Seq::<u8>::empty());
        assert(out@ + Seq::<u8>::empty() =~= out@);
    }
    Some(out)
}

} // verus!
