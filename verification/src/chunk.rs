use vstd::prelude::*;

use vstd::slice::slice_subrange;

use crate::error::CodecError;

verus! {

/// Payload bytes carried by each memcomparable group.
pub const ENC_GROUP_SIZE: usize = 8;

/// Marker byte of a completely full group.
pub const ENC_MARKER: u8 = 0xff;

/// Lowest valid marker byte: the marker of an all-padding group.
pub const ENC_PAD_MARKER: u8 = 0xf7;

pub open spec fn zeros(n: nat) -> Seq<u8> {
    Seq::new(n, |i: int| 0u8)
}

/// The memcomparable encoding of `key`: the key is cut into groups of
/// eight payload bytes; a partial final group is padded with zeros, and its
/// marker byte 0xff - fill_count records how many padding bytes were added.
/// A key whose length is a multiple of eight (the empty key included) ends
/// in an all-zero terminating group with marker 0xf7, so that no full group
/// ever stands unterminated.
pub open spec fn spec_encode_bytes(key: Seq<u8>) -> Seq<u8>
    decreases key.len(),
{
    if key.len() >= 8 {
        key.take(8) + seq![ENC_MARKER] + spec_encode_bytes(key.skip(8))
    } else {
        key + zeros((8 - key.len()) as nat) + seq![(0xf7 + key.len()) as u8]
    }
}

/// The marker byte of group `g` of `code` lies in the valid range.
pub open spec fn spec_group_valid(code: Seq<u8>, g: int) -> bool {
    code[9 * g + 8] >= 0xf7
}

/// `code` is a structurally well-formed memcomparable encoding: a whole
/// number of nine-byte groups, each with a marker of at least 0xf7.
pub open spec fn spec_is_encoded(code: Seq<u8>) -> bool {
    &&& code.len() % 9 == 0
    &&& forall|g: int| 0 <= g < code.len() / 9 ==> #[trigger] spec_group_valid(code, g)
}

/// Count of real (non-padding) payload bytes declared by a group marker.
pub open spec fn spec_group_len(marker: u8) -> nat {
    if marker >= 0xf7 {
        (marker - 0xf7) as nat
    } else {
        0
    }
}

/// The key recovered from a memcomparable encoding: the declared payload
/// bytes of each nine-byte group, concatenated in order.
pub open spec fn spec_decode_bytes(code: Seq<u8>) -> Seq<u8>
    decreases code.len(),
{
    if code.len() < 9 {
        Seq::empty()
    } else {
        code.subrange(0, spec_group_len(code[8]) as int) + spec_decode_bytes(code.skip(9))
    }
}

/// Strict byte-wise lexicographic order on byte strings, the order under
/// which encoded keys are compared.
pub open spec fn lex_lt(a: Seq<u8>, b: Seq<u8>) -> bool
    decreases a.len(),
{
    if b.len() == 0 {
        false
    } else if a.len() == 0 {
        true
    } else {
        a[0] < b[0] || (a[0] == b[0] && lex_lt(a.drop_first(), b.drop_first()))
    }
}

proof fn lemma_lex_lt_prepend(c: Seq<u8>, a: Seq<u8>, b: Seq<u8>)
    requires
        lex_lt(a, b),
    ensures
        lex_lt(c + a, c + b),
    decreases c.len(),
{
    if c.len() == 0 {
        assert(c + a =~= a);
        assert(c + b =~= b);
    } else {
        lemma_lex_lt_prepend(c.drop_first(), a, b);
        assert((c + a).drop_first() =~= c.drop_first() + a);
        assert((c + b).drop_first() =~= c.drop_first() + b);
        assert((c + a)[0] == c[0] && (c + b)[0] == c[0]);
    }
}

proof fn lemma_lex_lt_pointwise(a: Seq<u8>, b: Seq<u8>, k: int)
    requires
        0 <= k < a.len(),
        k < b.len(),
        forall|j: int| 0 <= j < k ==> a[j] <= b[j],
        a[k] < b[k],
    ensures
        lex_lt(a, b),
    decreases k,
{
    if k == 0 {
    } else {
        if a[0] < b[0] {
        } else {
            assert(a[0] == b[0]);
            assert(forall|j: int| 0 <= j < k - 1 ==> a.drop_first()[j] <= b.drop_first()[j]);
            assert(a.drop_first()[k - 1] < b.drop_first()[k - 1]);
            lemma_lex_lt_pointwise(a.drop_first(), b.drop_first(), k - 1);
        }
    }
}

/// Round trip: every encoding is structurally well formed and decodes back
/// to the key it was made from.
pub proof fn lemma_memcomparable_round_trip(key: Seq<u8>)
    ensures
        spec_is_encoded(spec_encode_bytes(key)),
        spec_decode_bytes(spec_encode_bytes(key)) == key,
    decreases key.len(),
{
    let e = spec_encode_bytes(key);
    if key.len() >= 8 {
        lemma_memcomparable_round_trip(key.skip(8));
        let rest = spec_encode_bytes(key.skip(8));
        assert(e == key.take(8) + seq![ENC_MARKER] + rest);
        assert(e.len() == 9 + rest.len());
        assert(e[8] == ENC_MARKER);
        assert forall|g: int| 0 <= g < e.len() / 9 implies #[trigger] spec_group_valid(e, g) by {
            if g == 0 {
                assert(e[8] == ENC_MARKER);
            } else {
                assert(e[9 * g + 8] == rest[9 * (g - 1) + 8]);
                assert(spec_group_valid(rest, g - 1));
            }
        }
        assert(spec_group_len(e[8]) == 8);
        assert(e.skip(9) =~= rest);
        assert(e.subrange(0, 8) =~= key.take(8));
        assert(spec_decode_bytes(e) == key.take(8) + spec_decode_bytes(rest));
        assert(key.take(8) + key.skip(8) =~= key);
    } else {
        let m = (0xf7 + key.len()) as u8;
        assert(e == key + zeros((8 - key.len()) as nat) + seq![m]);
        assert(e.len() == 9);
        assert(e[8] == m && m >= 0xf7);
        assert forall|g: int| 0 <= g < e.len() / 9 implies #[trigger] spec_group_valid(e, g) by {
            assert(g == 0);
            assert(e[8] == m);
        }
        assert(spec_group_len(m) == key.len());
        assert(e.subrange(0, key.len() as int) =~= key);
        assert(e.skip(9).len() == 0);
        assert(spec_decode_bytes(e.skip(9)) == Seq::<u8>::empty());
        assert(spec_decode_bytes(e) =~= key);
    }
}

/// Order preservation: a proper prefix of a key encodes strictly below the
/// key's own encoding under byte-wise lexicographic comparison, so encoded
/// keys sort like the keys themselves.
pub proof fn lemma_encode_preserves_prefix_order(a: Seq<u8>, b: Seq<u8>)
    requires
        a.len() < b.len(),
        a == b.take(a.len() as int),
    ensures
        lex_lt(spec_encode_bytes(a), spec_encode_bytes(b)),
    decreases a.len(),
{
    let ea = spec_encode_bytes(a);
    let eb = spec_encode_bytes(b);
    if a.len() >= 8 {
        assert(a.take(8) =~= b.take(8));
        assert(a.skip(8) =~= b.skip(8).take(a.len() - 8));
        lemma_encode_preserves_prefix_order(a.skip(8), b.skip(8));
        lemma_lex_lt_prepend(
            a.take(8) + seq![ENC_MARKER],
            spec_encode_bytes(a.skip(8)),
            spec_encode_bytes(b.skip(8)),
        );
        assert(ea =~= (a.take(8) + seq![ENC_MARKER]) + spec_encode_bytes(a.skip(8)));
        assert(eb =~= (b.take(8) + seq![ENC_MARKER]) + spec_encode_bytes(b.skip(8)));
    } else {
        let ma = (0xf7 + a.len()) as u8;
        assert(ea == a + zeros((8 - a.len()) as nat) + seq![ma]);
        assert(ea.len() == 9);
        assert(forall|j: int| 0 <= j < a.len() ==> ea[j] == a[j]);
        assert(forall|j: int| a.len() <= j < 8 ==> ea[j] == 0);
        assert(ea[8] == ma);
        if b.len() >= 8 {
            assert(forall|j: int| 0 <= j < 8 ==> eb[j] == b[j]);
            assert(eb[8] == ENC_MARKER);
            assert(forall|j: int| 0 <= j < a.len() ==> a[j] == b[j]);
            assert(ea[8] < eb[8]);
            lemma_lex_lt_pointwise(ea, eb, 8);
        } else {
            let mb = (0xf7 + b.len()) as u8;
            assert(eb == b + zeros((8 - b.len()) as nat) + seq![mb]);
            assert(forall|j: int| 0 <= j < b.len() ==> eb[j] == b[j]);
            assert(forall|j: int| b.len() <= j < 8 ==> eb[j] == 0);
            assert(eb[8] == mb);
            assert(forall|j: int| 0 <= j < a.len() ==> a[j] == b[j]);
            assert(ea[8] < eb[8]);
            lemma_lex_lt_pointwise(ea, eb, 8);
        }
    }
}

/// Encodes `key` in the order-preserving memcomparable form: zero-padded
/// groups of eight payload bytes, each followed by a marker byte recording
/// the padding, with a terminating empty group after a full final group.
pub fn encode_bytes(key: &[u8]) -> (r: Vec<u8>)
    ensures
        r@ == spec_encode_bytes(key@),
{
    let mut result: Vec<u8> = Vec::new();
    let mut pos: usize = 0;
    proof {
        assert(key@.skip(0) =~= key@);
    }
    while key.len() - pos >= 8
        invariant
            pos <= key@.len(),
            key@.len() == key.len(),
            spec_encode_bytes(key@) == result@ + spec_encode_bytes(key@.skip(pos as int)),
        decreases key@.len() - pos,
    {
        let ghost pre = result@;
        proof {
            assert(pre + key@.subrange(pos as int, pos as int) =~= pre);
        }
        let mut i: usize = 0;
        while i < 8
            invariant
                i <= 8,
                pos + 8 <= key@.len(),
                key@.len() <= usize::MAX,
                result@ == pre + key@.subrange(pos as int, pos as int + i as int),
            decreases 8 - i,
        {
            result.push(key[pos + i]);
            i = i + 1;
            proof {
                assert(result@ =~= pre + key@.subrange(pos as int, pos as int + i as int));
            }
        }
        result.push(ENC_MARKER);
        pos = pos + 8;
        proof {
            let rem = key@.skip(pos as int - 8);
            assert(rem.take(8) =~= key@.subrange(pos as int - 8, pos as int));
            assert(rem.skip(8) =~= key@.skip(pos as int));
            assert(spec_encode_bytes(rem) == rem.take(8) + seq![ENC_MARKER] + spec_encode_bytes(
                rem.skip(8),
            ));
            assert(result@ + spec_encode_bytes(key@.skip(pos as int)) =~= pre + spec_encode_bytes(
                rem,
            ));
        }
    }
    let rem_len = key.len() - pos;
    let ghost pre = result@;
    proof {
        assert(pre + key@.subrange(pos as int, pos as int) =~= pre);
    }
    let mut i: usize = 0;
    while i < rem_len
        invariant
            i <= rem_len,
            rem_len == key@.len() - pos,
            pos + rem_len == key@.len(),
            key@.len() <= usize::MAX,
            result@ == pre + key@.subrange(pos as int, pos as int + i as int),
        decreases rem_len - i,
    {
        result.push(key[pos + i]);
        i = i + 1;
        proof {
            assert(result@ =~= pre + key@.subrange(pos as int, pos as int + i as int));
        }
    }
    let mut j: usize = 0;
    while j < 8 - rem_len
        invariant
            j <= 8 - rem_len,
            rem_len <= 8,
            rem_len == key@.len() - pos,
            result@ == pre + key@.subrange(pos as int, key@.len() as int) + zeros(j as nat),
        decreases 8 - rem_len - j,
    {
        result.push(0);
        j = j + 1;
        proof {
            assert(result@ =~= pre + key@.subrange(pos as int, key@.len() as int) + zeros(
                j as nat,
            ));
        }
    }
    result.push(0xf7 + rem_len as u8);
    proof {
        let rem = key@.skip(pos as int);
        assert(rem =~= key@.subrange(pos as int, key@.len() as int));
        assert(spec_encode_bytes(rem) == rem + zeros((8 - rem.len()) as nat) + seq![
            (0xf7 + rem.len()) as u8,
        ]);
        assert(result@ =~= pre + spec_encode_bytes(rem));
        assert(result@ =~= spec_encode_bytes(key@));
    }
    result
}

/// Extracts the real payload bytes of a single nine-byte group, dropping
/// the zero padding that the group's marker byte declares.
pub fn decode_chunk(chunk: &[u8]) -> (r: &[u8])
    requires
        chunk@.len() == 9,
        chunk@[8] >= 0xf7,
    ensures
        r@ == chunk@.subrange(0, spec_group_len(chunk@[8]) as int),
{
    let length = 8 - (0xff - chunk[8]);
    slice_subrange(chunk, 0, length as usize)
}

/// Whether `code` could have been produced by `encode_bytes`: a whole
/// number of nine-byte groups, each marker within the valid range.
pub fn could_be_encoded_bytes(code: &[u8]) -> (r: bool)
    ensures
        r == spec_is_encoded(code@),
{
    if code.len() % 9 != 0 {
        return false;
    }
    let mut pos: usize = 0;
    while pos < code.len()
        invariant
            pos <= code@.len(),
            pos % 9 == 0,
            code@.len() % 9 == 0,
            code@.len() == code.len(),
            forall|g: int| 0 <= g < pos / 9 ==> #[trigger] spec_group_valid(code@, g),
        decreases code@.len() - pos,
    {
        if code[pos + 8] < 0xf7 {
            proof {
                assert(9 * (pos as int / 9) + 8 == pos + 8);
                assert(!spec_group_valid(code@, pos as int / 9));
            }
            return false;
        }
        proof {
            assert(9 * (pos as int / 9) + 8 == pos + 8);
            assert(spec_group_valid(code@, pos as int / 9));
        }
        pos = pos + 9;
    }
    true
}

/// Decodes a memcomparable encoding back to the original key; reports
/// `MalformedEncoding` when the input is not a well-formed encoding.
pub fn decode_bytes(code: &[u8]) -> (r: Result<Vec<u8>, CodecError>)
    ensures
        match r {
            Ok(v) => spec_is_encoded(code@) && v@ == spec_decode_bytes(code@),
            Err(e) => !spec_is_encoded(code@) && e == CodecError::MalformedEncoding,
        },
{
    if code.len() % 9 != 0 {
        return Err(CodecError::MalformedEncoding);
    }
    let mut result: Vec<u8> = Vec::new();
    let mut pos: usize = 0;
    proof {
        assert(code@.skip(0) =~= code@);
    }
    while pos < code.len()
        invariant
            pos <= code@.len(),
            pos % 9 == 0,
            code@.len() % 9 == 0,
            code@.len() == code.len(),
            forall|g: int| 0 <= g < pos / 9 ==> #[trigger] spec_group_valid(code@, g),
            spec_decode_bytes(code@) == result@ + spec_decode_bytes(code@.skip(pos as int)),
        decreases code@.len() - pos,
    {
        let marker = code[pos + 8];
        if marker < 0xf7 {
            proof {
                assert(9 * (pos as int / 9) + 8 == pos + 8);
                assert(!spec_group_valid(code@, pos as int / 9));
            }
            return Err(CodecError::MalformedEncoding);
        }
        let l = (marker - 0xf7) as usize;
        let ghost pre = result@;
        proof {
            assert(pre + code@.subrange(pos as int, pos as int) =~= pre);
        }
        let mut i: usize = 0;
        while i < l
            invariant
                i <= l,
                l <= 8,
                pos + 9 <= code@.len(),
                code@.len() <= usize::MAX,
                result@ == pre + code@.subrange(pos as int, pos as int + i as int),
            decreases l - i,
        {
            result.push(code[pos + i]);
            i = i + 1;
            proof {
                assert(result@ =~= pre + code@.subrange(pos as int, pos as int + i as int));
            }
        }
        pos = pos + 9;
        proof {
            assert(9 * ((pos - 9) as int / 9) + 8 == pos - 9 + 8);
            assert(spec_group_valid(code@, (pos - 9) as int / 9));
            let rem = code@.skip(pos as int - 9);
            assert(rem[8] == marker);
            assert(spec_decode_bytes(rem) == rem.subrange(0, spec_group_len(marker) as int)
                + spec_decode_bytes(rem.skip(9)));
            assert(rem.subrange(0, l as int) =~= code@.subrange(pos as int - 9, pos as int - 9
                + l as int));
            assert(rem.skip(9) =~= code@.skip(pos as int));
            assert(result@ + spec_decode_bytes(code@.skip(pos as int)) =~= pre
                + spec_decode_bytes(rem));
        }
    }
    proof {
        assert(spec_decode_bytes(code@.skip(pos as int)) == Seq::<u8>::empty());
        assert(result@ =~= spec_decode_bytes(code@));
        assert(spec_is_encoded(code@));
    }
    Ok(result)
}

} // verus!
