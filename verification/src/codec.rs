//! The persistence codec: the whole store as one binary image.
//!
//! The layout, front to back: the record count as eight little-endian bytes;
//! each identifier as its UTF-8 byte length (eight bytes) followed by its
//! UTF-8 bytes; the coordinate count as eight bytes; each coordinate as four
//! little-endian two's-complement bytes; and the dimension as one presence
//! byte (zero or one), followed by eight bytes when present. Decoding
//! accepts exactly the images that encoding produces: anything else is
//! turned away as corrupt.

use crate::db::{StoreModel, VecDB};
use crate::errors::VecError;
use crate::vector::{ints, MAX_DIM};
use vstd::prelude::*;
use vstd::slice::{slice_subrange, slice_to_vec};
use vstd::utf8::{decode_utf8, encode_utf8, valid_utf8};
use vstd::utf8::{decode_utf8_encode_utf8, encode_utf8_decode_utf8, encode_utf8_valid_utf8};

verus! {

/// `256^n`: the number of values `n` bytes can carry.
pub open spec fn pow256(n: nat) -> int
    decreases n,
{
    if n == 0 {
        1
    } else {
        256 * pow256((n - 1) as nat)
    }
}

/// The little-endian bytes of `x`, `len` of them, least significant first.
pub open spec fn le_bytes(x: int, len: nat) -> Seq<u8>
    decreases len,
{
    if len == 0 {
        Seq::empty()
    } else {
        seq![(x % 256) as u8] + le_bytes(x / 256, (len - 1) as nat)
    }
}

/// The value carried by little-endian bytes.
pub open spec fn le_val(b: Seq<u8>) -> int
    decreases b.len(),
{
    if b.len() == 0 {
        0
    } else {
        b[0] + 256 * le_val(b.drop_first())
    }
}

/// The powers of 256 up to eight bytes, spelled out.
pub proof fn lemma_pow256_values()
    ensures
        pow256(0) == 1,
        pow256(1) == 0x100,
        pow256(2) == 0x10000,
        pow256(3) == 0x1000000,
        pow256(4) == 0x100000000,
        pow256(5) == 0x10000000000,
        pow256(6) == 0x1000000000000,
        pow256(7) == 0x100000000000000,
        pow256(8) == 0x10000000000000000,
{
    assert(pow256(0) == 1);
    assert(pow256(1) == 256 * pow256(0));
    assert(pow256(2) == 256 * pow256(1));
    assert(pow256(3) == 256 * pow256(2));
    assert(pow256(4) == 256 * pow256(3));
    assert(pow256(5) == 256 * pow256(4));
    assert(pow256(6) == 256 * pow256(5));
    assert(pow256(7) == 256 * pow256(6));
    assert(pow256(8) == 256 * pow256(7));
}

/// A byte sequence carries a value below `256^len`.
pub proof fn lemma_le_val_bound(b: Seq<u8>)
    ensures
        0 <= le_val(b) < pow256(b.len()),
    decreases b.len(),
{
    if b.len() > 0 {
        lemma_le_val_bound(b.drop_first());
        let r = le_val(b.drop_first());
        let p = pow256((b.len() - 1) as nat);
        assert(b[0] + 256 * r < 256 * p && 0 <= 256 * r) by (nonlinear_arith)
            requires
                0 <= r < p,
                0 <= b[0] < 256,
        ;
    }
}

/// Encoding a value in range and reading it back is the identity.
pub proof fn lemma_le_bytes_val(x: int, len: nat)
    requires
        0 <= x < pow256(len),
    ensures
        le_bytes(x, len).len() == len,
        le_val(le_bytes(x, len)) == x,
    decreases len,
{
    if len == 0 {
    } else {
        let q = x / 256;
        let r = x % 256;
        assert(0 <= r < 256 && x == 256 * q + r && 0 <= q < pow256((len - 1) as nat))
            by (nonlinear_arith)
            requires
                0 <= x < pow256(len),
                pow256(len) == 256 * pow256((len - 1) as nat),
                q == x / 256,
                r == x % 256,
        ;
        lemma_le_bytes_val(q, (len - 1) as nat);
        let b = le_bytes(x, len);
        assert(b.drop_first() =~= le_bytes(q, (len - 1) as nat));
        assert(b[0] == r as u8);
    }
}

/// Byte length of an encoding.
pub proof fn lemma_le_bytes_len(x: int, len: nat)
    ensures
        le_bytes(x, len).len() == len,
    decreases len,
{
    if len > 0 {
        lemma_le_bytes_len(x / 256, (len - 1) as nat);
    }
}

/// Powers of 256 grow with the exponent.
pub proof fn lemma_pow256_mono(a: nat, b: nat)
    requires
        a <= b,
    ensures
        pow256(a) <= pow256(b),
    decreases b,
{
    if a < b {
        lemma_pow256_mono(a, (b - 1) as nat);
        lemma_pow256_pos((b - 1) as nat);
        assert(pow256((b - 1) as nat) <= 256 * pow256((b - 1) as nat)) by (nonlinear_arith)
            requires
                pow256((b - 1) as nat) >= 1,
        ;
    }
}

/// Powers of 256 are positive.
pub proof fn lemma_pow256_pos(n: nat)
    ensures
        pow256(n) >= 1,
    decreases n,
{
    if n > 0 {
        lemma_pow256_pos((n - 1) as nat);
        assert(256 * pow256((n - 1) as nat) >= pow256((n - 1) as nat)) by (nonlinear_arith)
            requires
                pow256((n - 1) as nat) >= 1,
        ;
    }
}

/// The two's-complement 32-bit image of a coordinate.
pub open spec fn comp_offset(c: int) -> int {
    if c >= 0 {
        c
    } else {
        c + 0x100000000
    }
}

/// The coordinate a 32-bit image stands for.
pub open spec fn comp_val(u: int) -> int {
    if u < 0x80000000 {
        u
    } else {
        u - 0x100000000
    }
}

/// One identifier: its UTF-8 byte length, then its UTF-8 bytes.
pub open spec fn encode_str(s: Seq<char>) -> Seq<u8> {
    le_bytes(encode_utf8(s).len() as int, 8) + encode_utf8(s)
}

/// All identifiers, front to back.
pub open spec fn encode_ids(ids: Seq<Seq<char>>) -> Seq<u8>
    decreases ids.len(),
{
    if ids.len() == 0 {
        Seq::empty()
    } else {
        encode_str(ids[0]) + encode_ids(ids.drop_first())
    }
}

/// All coordinates, front to back, four bytes each.
pub open spec fn encode_data(data: Seq<int>) -> Seq<u8>
    decreases data.len(),
{
    if data.len() == 0 {
        Seq::empty()
    } else {
        le_bytes(comp_offset(data[0]), 4) + encode_data(data.drop_first())
    }
}

/// The whole store as one byte image.
pub open spec fn encode_spec(m: StoreModel) -> Seq<u8> {
    le_bytes(m.ids.len() as int, 8) + encode_ids(m.ids) + le_bytes(m.data.len() as int, 8)
        + encode_data(m.data) + (match m.dim {
        Option::None => seq![0u8],
        Option::Some(d) => seq![1u8] + le_bytes(d, 8),
    })
}

/// Reads eight bytes as a length, handing back what follows.
pub open spec fn parse_u64(b: Seq<u8>) -> Option<(int, Seq<u8>)> {
    if b.len() < 8 {
        Option::None
    } else {
        Option::Some((le_val(b.take(8)), b.skip(8)))
    }
}

/// Reads one length-prefixed UTF-8 identifier.
pub open spec fn parse_str(b: Seq<u8>) -> Option<(Seq<char>, Seq<u8>)> {
    match parse_u64(b) {
        Option::None => Option::None,
        Option::Some((l, rest)) => if rest.len() < l {
            Option::None
        } else if !valid_utf8(rest.take(l)) {
            Option::None
        } else {
            Option::Some((decode_utf8(rest.take(l)), rest.skip(l)))
        },
    }
}

/// Reads `n` identifiers in order.
pub open spec fn parse_ids(b: Seq<u8>, n: int) -> Option<(Seq<Seq<char>>, Seq<u8>)>
    decreases n,
{
    if n <= 0 {
        Option::Some((Seq::empty(), b))
    } else {
        match parse_str(b) {
            Option::None => Option::None,
            Option::Some((s, rest)) => match parse_ids(rest, n - 1) {
                Option::None => Option::None,
                Option::Some((ss, r2)) => Option::Some((seq![s] + ss, r2)),
            },
        }
    }
}

/// Reads one four-byte coordinate.
pub open spec fn parse_comp(b: Seq<u8>) -> Option<(int, Seq<u8>)> {
    if b.len() < 4 {
        Option::None
    } else {
        Option::Some((comp_val(le_val(b.take(4))), b.skip(4)))
    }
}

/// Reads `n` coordinates in order.
pub open spec fn parse_data(b: Seq<u8>, n: int) -> Option<(Seq<int>, Seq<u8>)>
    decreases n,
{
    if n <= 0 {
        Option::Some((Seq::empty(), b))
    } else {
        match parse_comp(b) {
            Option::None => Option::None,
            Option::Some((c, rest)) => match parse_data(rest, n - 1) {
                Option::None => Option::None,
                Option::Some((cs, r2)) => Option::Some((seq![c] + cs, r2)),
            },
        }
    }
}

/// Reads the trailing dimension field, which must end the image.
pub open spec fn parse_dim(b: Seq<u8>) -> Option<Option<int>> {
    if b.len() == 1 && b[0] == 0 {
        Option::Some(Option::None)
    } else if b.len() == 9 && b[0] == 1 {
        Option::Some(Option::Some(le_val(b.skip(1))))
    } else {
        Option::None
    }
}

/// The store a byte image stands for: `None` when the image is corrupt,
/// that is, when it is not exactly the encoding of one well-formed store
/// whose counts fit the machine.
pub open spec fn decode_spec(b: Seq<u8>) -> Option<StoreModel> {
    match parse_u64(b) {
        Option::None => Option::None,
        Option::Some((n, b1)) => if n > usize::MAX as int {
            Option::None
        } else {
            match parse_ids(b1, n) {
                Option::None => Option::None,
                Option::Some((ids, b2)) => match parse_u64(b2) {
                    Option::None => Option::None,
                    Option::Some((dl, b3)) => if dl > usize::MAX as int {
                        Option::None
                    } else {
                        match parse_data(b3, dl) {
                            Option::None => Option::None,
                            Option::Some((data, b4)) => match parse_dim(b4) {
                                Option::None => Option::None,
                                Option::Some(dim) => {
                                    let m = StoreModel { ids, data, dim };
                                    if m.wf() {
                                        Option::Some(m)
                                    } else {
                                        Option::None
                                    }
                                },
                            },
                        }
                    },
                },
            }
        },
    }
}

/// Appends the `count` little-endian bytes of `x`.
fn push_le(out: &mut Vec<u8>, x: u64, count: usize)
    requires
        count <= 8,
        (x as int) < pow256(count as nat),
    ensures
        final(out)@ == old(out)@ + le_bytes(x as int, count as nat),
{
    let ghost x0 = x as int;
    let mut cur = x;
    let mut j: usize = 0;
    proof {
        assert(out@ + le_bytes(cur as int, (count - j) as nat) =~= old(out)@ + le_bytes(
            x0,
            count as nat,
        ));
    }
    while j < count
        invariant
            0 <= j <= count <= 8,
            (cur as int) < pow256((count - j) as nat),
            out@ + le_bytes(cur as int, (count - j) as nat) == old(out)@ + le_bytes(
                x0,
                count as nat,
            ),
        decreases count - j,
    {
        let ghost pre = out@;
        let ghost c = cur as int;
        out.push((cur % 256) as u8);
        cur = cur / 256;
        j = j + 1;
        proof {
            assert(le_bytes(c, (count - j + 1) as nat) == seq![(c % 256) as u8] + le_bytes(
                c / 256,
                (count - j) as nat,
            ));
            assert(out@ + le_bytes(cur as int, (count - j) as nat) =~= pre + le_bytes(
                c,
                (count - j + 1) as nat,
            ));
            assert(c / 256 < pow256((count - j) as nat)) by (nonlinear_arith)
                requires
                    c < pow256((count - j + 1) as nat),
                    pow256((count - j + 1) as nat) == 256 * pow256((count - j) as nat),
                    c >= 0,
            ;
        }
    }
    proof {
        assert(out@ + le_bytes(cur as int, 0) =~= out@);
    }
}

/// Reads `count` little-endian bytes starting at `pos`.
fn read_le(bytes: &Vec<u8>, pos: usize, count: usize) -> (r: u64)
    requires
        count <= 8,
        pos + count <= bytes@.len(),
    ensures
        r as int == le_val(bytes@.subrange(pos as int, pos as int + count as int)),
{
    let ghost s = bytes@.subrange(pos as int, pos as int + count as int);
    let blen = bytes.len();
    let mut x: u64 = 0;
    let mut j: usize = count;
    proof {
        assert(s.subrange(count as int, count as int) =~= Seq::empty());
    }
    while j > 0
        invariant
            0 <= j <= count <= 8,
            pos + count <= bytes@.len(),
            blen == bytes@.len(),
            s == bytes@.subrange(pos as int, pos as int + count as int),
            x as int == le_val(s.subrange(j as int, count as int)),
            (x as int) < pow256((count - j) as nat),
        decreases j,
    {
        j = j - 1;
        proof {
            assert((pos as int) + (j as int) < bytes@.len());
        }
        let b = bytes[pos + j];
        proof {
            lemma_pow256_values();
            lemma_pow256_mono((count - j - 1) as nat, 7);
            let t = s.subrange(j as int, count as int);
            assert(t[0] == s[j as int]);
            assert(s[j as int] == bytes@[pos as int + j as int]);
            assert(t.drop_first() =~= s.subrange(j as int + 1, count as int));
            assert(256 * (x as int) + b < pow256((count - j) as nat)) by (nonlinear_arith)
                requires
                    (x as int) < pow256((count - j - 1) as nat),
                    pow256((count - j) as nat) == 256 * pow256((count - j - 1) as nat),
                    0 <= b < 256,
                    x >= 0,
            ;
        }
        x = (b as u64) + 256 * x;
    }
    proof {
        assert(s.subrange(0, count as int) =~= s);
    }
    x
}

/// Appending one identifier extends the image by that identifier's encoding.
proof fn lemma_encode_ids_snoc(ids: Seq<Seq<char>>, i: int)
    requires
        0 <= i < ids.len(),
    ensures
        encode_ids(ids.take(i + 1)) == encode_ids(ids.take(i)) + encode_str(ids[i]),
    decreases i,
{
    if i == 0 {
        let t = ids.take(1);
        assert(t[0] == ids[0]);
        assert(t.drop_first() =~= Seq::<Seq<char>>::empty());
        assert(encode_ids(Seq::<Seq<char>>::empty()) == Seq::<u8>::empty());
        assert(encode_ids(ids.take(0)) =~= Seq::<u8>::empty());
        assert(encode_ids(t) == encode_str(t[0]) + encode_ids(t.drop_first()));
        assert(encode_str(ids[0]) + Seq::<u8>::empty() =~= encode_str(ids[0]));
        assert(encode_ids(ids.take(0)) + encode_str(ids[0]) =~= encode_str(ids[0]));
    } else {
        let d = ids.drop_first();
        lemma_encode_ids_snoc(d, i - 1);
        assert(ids.take(i + 1).drop_first() =~= d.take(i));
        assert(ids.take(i).drop_first() =~= d.take(i - 1));
        assert(ids.take(i + 1)[0] == ids[0]);
        assert(ids.take(i)[0] == ids[0]);
        assert(d[i - 1] == ids[i]);
        assert(encode_ids(ids.take(i + 1)) == encode_str(ids[0]) + encode_ids(d.take(i)));
        assert(encode_ids(ids.take(i)) == encode_str(ids[0]) + encode_ids(d.take(i - 1)));
        assert(encode_str(ids[0]) + (encode_ids(d.take(i - 1)) + encode_str(ids[i])) =~= (
        encode_str(ids[0]) + encode_ids(d.take(i - 1))) + encode_str(ids[i]));
    }
}

/// Appending one coordinate extends the image by its four bytes.
proof fn lemma_encode_data_snoc(data: Seq<int>, i: int)
    requires
        0 <= i < data.len(),
    ensures
        encode_data(data.take(i + 1)) == encode_data(data.take(i)) + le_bytes(
            comp_offset(data[i]),
            4,
        ),
    decreases i,
{
    if i == 0 {
        let t = data.take(1);
        assert(t[0] == data[0]);
        assert(t.drop_first() =~= Seq::<int>::empty());
        assert(encode_data(Seq::<int>::empty()) == Seq::<u8>::empty());
        assert(encode_data(data.take(0)) =~= Seq::<u8>::empty());
        assert(encode_data(t) == le_bytes(comp_offset(t[0]), 4) + encode_data(t.drop_first()));
        assert(le_bytes(comp_offset(data[0]), 4) + Seq::<u8>::empty() =~= le_bytes(
            comp_offset(data[0]),
            4,
        ));
        assert(encode_data(data.take(0)) + le_bytes(comp_offset(data[0]), 4) =~= le_bytes(
            comp_offset(data[0]),
            4,
        ));
    } else {
        let d = data.drop_first();
        lemma_encode_data_snoc(d, i - 1);
        assert(data.take(i + 1).drop_first() =~= d.take(i));
        assert(data.take(i).drop_first() =~= d.take(i - 1));
        assert(data.take(i + 1)[0] == data[0]);
        assert(data.take(i)[0] == data[0]);
        assert(d[i - 1] == data[i]);
        assert(encode_data(data.take(i + 1)) == le_bytes(comp_offset(data[0]), 4) + encode_data(
            d.take(i),
        ));
        assert(encode_data(data.take(i)) == le_bytes(comp_offset(data[0]), 4) + encode_data(
            d.take(i - 1),
        ));
        assert(le_bytes(comp_offset(data[0]), 4) + (encode_data(d.take(i - 1)) + le_bytes(
            comp_offset(data[i]),
            4,
        )) =~= (le_bytes(comp_offset(data[0]), 4) + encode_data(d.take(i - 1))) + le_bytes(
            comp_offset(data[i]),
            4,
        ));
    }
}

/// Serializes the whole store into one binary image: exactly
/// [`encode_spec`] of its model.
#[verifier::loop_isolation(false)]
pub fn encode(db: &VecDB) -> (r: Vec<u8>)
    ensures
        r@ == encode_spec(db@),
{
    let ids = db.ids_vec();
    let data = db.data_vec();
    let ghost names = db@.ids;
    let mut out: Vec<u8> = Vec::new();
    proof {
        lemma_pow256_values();
    }
    push_le(&mut out, ids.len() as u64, 8);
    let ghost head = out@;
    let n = ids.len();
    let mut i: usize = 0;
    proof {
        assert(encode_ids(names.take(0)) =~= Seq::<u8>::empty());
        assert(out@ =~= head + encode_ids(names.take(0)));
    }
    while i < n
        invariant
            0 <= i <= n,
            out@ == head + encode_ids(names.take(i as int)),
        decreases n - i,
    {
        let ghost pre = out@;
        let bytes_of_id = ids[i].as_str().as_bytes_vec();
        proof {
            assert(names[i as int] == ids@[i as int]@);
            assert(bytes_of_id@ == encode_utf8(names[i as int]));
        }
        push_le(&mut out, bytes_of_id.len() as u64, 8);
        let mut bs = bytes_of_id;
        out.append(&mut bs);
        proof {
            lemma_encode_ids_snoc(names, i as int);
            assert(out@ =~= pre + encode_str(names[i as int]));
            assert(out@ =~= head + encode_ids(names.take(i as int + 1)));
        }
        i = i + 1;
    }
    proof {
        assert(names.take(n as int) =~= names);
    }
    let ghost head2 = out@;
    push_le(&mut out, data.len() as u64, 8);
    let ghost head3 = out@;
    let ghost coords = db@.data;
    let m = data.len();
    let mut j: usize = 0;
    proof {
        assert(encode_data(coords.take(0)) =~= Seq::<u8>::empty());
        assert(out@ =~= head3 + encode_data(coords.take(0)));
    }
    while j < m
        invariant
            0 <= j <= m,
            out@ == head3 + encode_data(coords.take(j as int)),
        decreases m - j,
    {
        let ghost pre = out@;
        let c = data[j];
        let u: u32 = if c >= 0 {
            c as u32
        } else {
            ((c as i64) + 0x100000000) as u32
        };
        proof {
            assert(coords[j as int] == data@[j as int] as int);
            assert(u as int == comp_offset(coords[j as int]));
        }
        push_le(&mut out, u as u64, 4);
        proof {
            lemma_encode_data_snoc(coords, j as int);
            assert(out@ =~= pre + le_bytes(comp_offset(coords[j as int]), 4));
            assert(out@ =~= head3 + encode_data(coords.take(j as int + 1)));
        }
        j = j + 1;
    }
    proof {
        assert(coords.take(m as int) =~= coords);
    }
    match db.dimension() {
        None => {
            out.push(0u8);
            proof {
                assert(out@ =~= encode_spec(db@));
            }
        },
        Some(d) => {
            out.push(1u8);
            push_le(&mut out, d as u64, 8);
            proof {
                assert(out@ =~= encode_spec(db@));
            }
        },
    }
    out
}

/// Relies on `String::from_utf8`: it returns the string whose UTF-8 encoding
/// is the given bytes, and fails exactly when the bytes are not valid UTF-8.
#[verifier::external_body]
fn string_from_utf8(bytes: Vec<u8>) -> (r: Option<String>)
    ensures
        r matches Option::Some(s) ==> encode_utf8(s@) == bytes@,
        valid_utf8(bytes@) ==> r is Some,
{
    match String::from_utf8(bytes) {
        Ok(s) => Some(s),
        Err(_) => None,
    }
}

/// Reads one eight-byte length field, in terms of [`parse_u64`].
fn read_u64_at(bytes: &Vec<u8>, pos: usize) -> (r: Option<(u64, usize)>)
    requires
        pos <= bytes@.len(),
    ensures
        match r {
            Option::Some(t) => t.1 == pos + 8 && t.1 <= bytes@.len() && parse_u64(
                bytes@.skip(pos as int),
            ) == Option::Some((t.0 as int, bytes@.skip(t.1 as int))),
            Option::None => parse_u64(bytes@.skip(pos as int)) is None,
        },
{
    let blen = bytes.len();
    if blen - pos < 8 {
        return None;
    }
    let x = read_le(bytes, pos, 8);
    proof {
        let sfx = bytes@.skip(pos as int);
        assert(sfx.take(8) =~= bytes@.subrange(pos as int, pos as int + 8));
        assert(sfx.skip(8) =~= bytes@.skip(pos as int + 8));
    }
    Some((x, pos + 8))
}

/// Reads one four-byte coordinate, in terms of [`parse_comp`].
fn read_comp_at(bytes: &Vec<u8>, pos: usize) -> (r: Option<(i32, usize)>)
    requires
        pos <= bytes@.len(),
    ensures
        match r {
            Option::Some(t) => t.1 == pos + 4 && t.1 <= bytes@.len() && parse_comp(
                bytes@.skip(pos as int),
            ) == Option::Some((t.0 as int, bytes@.skip(t.1 as int))),
            Option::None => parse_comp(bytes@.skip(pos as int)) is None,
        },
{
    let blen = bytes.len();
    if blen - pos < 4 {
        return None;
    }
    let u = read_le(bytes, pos, 4);
    proof {
        lemma_pow256_values();
        lemma_le_val_bound(bytes@.subrange(pos as int, pos as int + 4));
        let sfx = bytes@.skip(pos as int);
        assert(sfx.take(4) =~= bytes@.subrange(pos as int, pos as int + 4));
        assert(sfx.skip(4) =~= bytes@.skip(pos as int + 4));
    }
    let c: i32 = if u < 0x80000000 {
        u as i32
    } else {
        ((u as i64) - 0x100000000) as i32
    };
    Some((c, pos + 4))
}

/// Rebuilds a store from a binary image.
///
/// Succeeds exactly on the images [`decode_spec`] accepts: the encodings of
/// well-formed stores whose counts fit the machine. Any other image is
/// turned away as `CorruptData`. A store this returns is well-formed by
/// construction; no further validation is done beyond what well-formedness
/// itself demands.
#[verifier::loop_isolation(false)]
#[verifier::rlimit(100)]
pub fn decode(bytes: &Vec<u8>) -> (r: Result<VecDB, VecError>)
    ensures
        match r {
            Result::Ok(db) => db@.wf() && decode_spec(bytes@) == Option::Some(db@),
            Result::Err(e) => e == VecError::CorruptData && decode_spec(bytes@) is None,
        },
{
    let blen = bytes.len();
    proof {
        assert(bytes@.skip(0) =~= bytes@);
    }
    let (count64, p1) = match read_u64_at(bytes, 0) {
        Some(t) => t,
        None => {
            return Err(VecError::CorruptData);
        },
    };
    if count64 > (usize::MAX as u64) {
        return Err(VecError::CorruptData);
    }
    let n = count64 as usize;
    let ghost b1 = bytes@.skip(p1 as int);
    let mut names: Vec<String> = Vec::new();
    let mut pos = p1;
    let mut i: usize = 0;
    proof {
        assert(parse_ids(bytes@.skip(pos as int), 0) == Option::Some(
            (Seq::<Seq<char>>::empty(), bytes@.skip(pos as int)),
        ));
    }
    while i < n
        invariant
            0 <= i <= n,
            pos <= bytes@.len(),
            names@.len() == i as int,
            parse_ids(b1, n as int) == (match parse_ids(
                bytes@.skip(pos as int),
                n as int - i as int,
            ) {
                Option::Some(t) => Option::Some(
                    ((names@.map_values(|s: String| s@) + t.0, t.1)),
                ),
                Option::None => Option::<(Seq<Seq<char>>, Seq<u8>)>::None,
            }),
        decreases n - i,
    {
        let ghost sfx = bytes@.skip(pos as int);
        let (l64, p2) = match read_u64_at(bytes, pos) {
            Some(t) => t,
            None => {
                return Err(VecError::CorruptData);
            },
        };
        if l64 > ((blen - p2) as u64) {
            proof {
                assert(bytes@.skip(p2 as int).len() < l64 as int);
            }
            return Err(VecError::CorruptData);
        }
        let l = l64 as usize;
        let sl = slice_subrange(bytes.as_slice(), p2, p2 + l);
        let bs = slice_to_vec(sl);
        let s = match string_from_utf8(bs) {
            Some(s) => s,
            None => {
                proof {
                    assert(bytes@.skip(p2 as int).take(l as int) =~= bytes@.subrange(
                        p2 as int,
                        p2 as int + l as int,
                    ));
                }
                return Err(VecError::CorruptData);
            },
        };
        let ghost old_names = names@.map_values(|q: String| q@);
        let ghost old_count = n as int - i as int;
        proof {
            let rest = bytes@.skip(p2 as int);
            assert(rest.take(l as int) =~= bytes@.subrange(p2 as int, p2 as int + l as int));
            encode_utf8_valid_utf8(s@);
            encode_utf8_decode_utf8(s@);
            assert(rest.skip(l as int) =~= bytes@.skip(p2 as int + l as int));
            assert(parse_str(sfx) == Option::Some(
                (s@, bytes@.skip(p2 as int + l as int)),
            ));
        }
        names.push(s);
        pos = p2 + l;
        i = i + 1;
        proof {
            let new_names = names@.map_values(|q: String| q@);
            assert(new_names =~= old_names.push(s@));
            let po = parse_ids(bytes@.skip(pos as int), n as int - i as int);
            assert(parse_ids(sfx, old_count) == (match po {
                Option::Some(t) => Option::Some(((seq![s@] + t.0, t.1))),
                Option::None => Option::<(Seq<Seq<char>>, Seq<u8>)>::None,
            }));
            if po is Some {
                let t = po->Some_0;
                assert(old_names + (seq![s@] + t.0) =~= new_names + t.0);
            }
        }
    }
    let ghost idseq = names@.map_values(|s: String| s@);
    proof {
        assert(idseq + Seq::<Seq<char>>::empty() =~= idseq);
        assert(parse_ids(b1, n as int) == Option::Some((idseq, bytes@.skip(pos as int))));
    }
    let (dl64, p3) = match read_u64_at(bytes, pos) {
        Some(t) => t,
        None => {
            return Err(VecError::CorruptData);
        },
    };
    if dl64 > (usize::MAX as u64) {
        return Err(VecError::CorruptData);
    }
    let dl = dl64 as usize;
    let ghost b3 = bytes@.skip(p3 as int);
    let mut coords: Vec<i32> = Vec::new();
    let mut pos = p3;
    let mut j: usize = 0;
    proof {
        assert(parse_data(bytes@.skip(pos as int), 0) == Option::Some(
            (Seq::<int>::empty(), bytes@.skip(pos as int)),
        ));
    }
    while j < dl
        invariant
            0 <= j <= dl,
            pos <= bytes@.len(),
            coords@.len() == j as int,
            parse_data(b3, dl as int) == (match parse_data(
                bytes@.skip(pos as int),
                dl as int - j as int,
            ) {
                Option::Some(t) => Option::Some(((ints(coords@) + t.0, t.1))),
                Option::None => Option::<(Seq<int>, Seq<u8>)>::None,
            }),
        decreases dl - j,
    {
        let (c, p4) = match read_comp_at(bytes, pos) {
            Some(t) => t,
            None => {
                return Err(VecError::CorruptData);
            },
        };
        let ghost old_coords = ints(coords@);
        let ghost old_count = dl as int - j as int;
        let ghost sfx = bytes@.skip(pos as int);
        coords.push(c);
        pos = p4;
        j = j + 1;
        proof {
            let new_coords = ints(coords@);
            assert(new_coords =~= old_coords.push(c as int));
            let po = parse_data(bytes@.skip(pos as int), dl as int - j as int);
            assert(parse_data(sfx, old_count) == (match po {
                Option::Some(t) => Option::Some(((seq![c as int] + t.0, t.1))),
                Option::None => Option::<(Seq<int>, Seq<u8>)>::None,
            }));
            if po is Some {
                let t = po->Some_0;
                assert(old_coords + (seq![c as int] + t.0) =~= new_coords + t.0);
            }
        }
    }
    let ghost dataseq = ints(coords@);
    proof {
        assert(dataseq + Seq::<int>::empty() =~= dataseq);
        assert(parse_data(b3, dl as int) == Option::Some((dataseq, bytes@.skip(pos as int))));
    }
    // The trailing dimension field must end the image.
    let ghost b4 = bytes@.skip(pos as int);
    if pos >= blen {
        return Err(VecError::CorruptData);
    }
    let tag = bytes[pos];
    let dim_field: Option<usize> = if tag == 0 {
        if pos + 1 != blen {
            return Err(VecError::CorruptData);
        }
        proof {
            assert(b4.len() == 1 && b4[0] == 0);
            assert(parse_dim(b4) == Option::Some(Option::<int>::None));
        }
        None
    } else if tag == 1 {
        if blen - pos != 9 {
            proof {
                assert(b4.len() != 9);
            }
            return Err(VecError::CorruptData);
        }
        let d64 = read_le(bytes, pos + 1, 8);
        proof {
            assert(b4[0] == 1);
            assert(b4.skip(1) =~= bytes@.subrange(pos as int + 1, pos as int + 9));
            assert(parse_dim(b4) == Option::Some(Option::Some(d64 as int)));
        }
        if d64 < 1 || d64 > (MAX_DIM as u64) {
            proof {
                let mm = StoreModel { ids: idseq, data: dataseq, dim: Option::Some(d64 as int) };
                assert(!mm.wf());
                assert(decode_spec(bytes@) is None);
            }
            return Err(VecError::CorruptData);
        }
        Some(d64 as usize)
    } else {
        proof {
            assert(parse_dim(b4) is None);
        }
        return Err(VecError::CorruptData);
    };
    let ghost dim_model: Option<int> = match dim_field {
        Option::Some(d) => Option::Some(d as int),
        Option::None => Option::None,
    };
    let ghost m = StoreModel { ids: idseq, data: dataseq, dim: dim_model };
    // Structural checks: exactly what well-formedness demands.
    match dim_field {
        None => {
            if n != 0 || dl != 0 {
                proof {
                    assert(!m.wf());
                    assert(decode_spec(bytes@) is None);
                }
                return Err(VecError::CorruptData);
            }
        },
        Some(d) => {
            proof {
                assert(((n as u128) as int) * ((d as u128) as int) < 0x100000000000000000000000000000000)
                    by (nonlinear_arith)
                    requires
                        0 <= ((n as u128) as int) < 0x10000000000000000,
                        0 <= ((d as u128) as int) < 0x10000000000000000,
                ;
            }
            if (n as u128) * (d as u128) != (dl as u128) {
                proof {
                    assert(m.data.len() != m.ids.len() * (d as int)) by (nonlinear_arith)
                        requires
                            (n as u128) * (d as u128) != (dl as u128),
                            m.data.len() == dl as int,
                            m.ids.len() == n as int,
                            (n as u128) as int == n as int,
                            (d as u128) as int == d as int,
                            (dl as u128) as int == dl as int,
                    ;
                    assert(!m.wf());
                    assert(decode_spec(bytes@) is None);
                }
                return Err(VecError::CorruptData);
            }
        },
    }
    // Identifiers must be pairwise distinct.
    let mut a: usize = 1;
    while a < n
        invariant
            1 <= a <= n || n == 0,
            n as int == names@.len(),
            idseq == names@.map_values(|s: String| s@),
            forall|p: int, q: int| 0 <= p < q < a as int ==> idseq[p] != idseq[q],
        decreases n - a,
    {
        let mut b: usize = 0;
        while b < a
            invariant
                0 <= b <= a < n,
                n as int == names@.len(),
                idseq == names@.map_values(|s: String| s@),
                forall|p: int| 0 <= p < b as int ==> idseq[p] != idseq[a as int],
            decreases a - b,
        {
            if names[b] == names[a] {
                proof {
                    assert(idseq[b as int] == idseq[a as int]);
                    assert(!m.wf());
                    assert(decode_spec(bytes@) is None);
                }
                return Err(VecError::CorruptData);
            }
            b = b + 1;
        }
        a = a + 1;
    }
    let db = VecDB::from_parts(names, coords, dim_field);
    proof {
        if let Option::Some(d) = dim_field {
            assert(m.data.len() == m.ids.len() * (d as int)) by (nonlinear_arith)
                requires
                    (n as u128) * (d as u128) == (dl as u128),
                    m.data.len() == dl as int,
                    m.ids.len() == n as int,
                    (n as u128) as int == n as int,
                    (d as u128) as int == d as int,
                    (dl as u128) as int == dl as int,
            ;
        }
        assert(m.wf());
        assert(decode_spec(bytes@) == Option::Some(m));
        assert(db@ == m);
    }
    Ok(db)
}

/// Reading back an eight-byte length recovers it exactly.
proof fn lemma_parse_u64_of(x: int, rest: Seq<u8>)
    requires
        0 <= x < pow256(8),
    ensures
        parse_u64(le_bytes(x, 8) + rest) == Option::Some((x, rest)),
{
    lemma_le_bytes_val(x, 8);
    let b = le_bytes(x, 8) + rest;
    assert(b.take(8) =~= le_bytes(x, 8));
    assert(b.skip(8) =~= rest);
}

/// Reading back a four-byte coordinate recovers it exactly.
proof fn lemma_parse_comp_of(c: int, rest: Seq<u8>)
    requires
        -0x80000000 <= c < 0x80000000,
    ensures
        parse_comp(le_bytes(comp_offset(c), 4) + rest) == Option::Some((c, rest)),
{
    lemma_pow256_values();
    lemma_le_bytes_val(comp_offset(c), 4);
    let b = le_bytes(comp_offset(c), 4) + rest;
    assert(b.take(4) =~= le_bytes(comp_offset(c), 4));
    assert(b.skip(4) =~= rest);
}

/// Reading back one encoded identifier recovers it exactly.
proof fn lemma_parse_str_of(s: Seq<char>, rest: Seq<u8>)
    requires
        encode_utf8(s).len() < pow256(8),
    ensures
        parse_str(encode_str(s) + rest) == Option::Some((s, rest)),
{
    let u = encode_utf8(s);
    let b = encode_str(s) + rest;
    assert(b =~= le_bytes(u.len() as int, 8) + (u + rest));
    lemma_parse_u64_of(u.len() as int, u + rest);
    let r2 = u + rest;
    assert(r2.take(u.len() as int) =~= u);
    assert(r2.skip(u.len() as int) =~= rest);
    encode_utf8_valid_utf8(s);
    encode_utf8_decode_utf8(s);
}

/// Reading back all encoded identifiers recovers them exactly.
proof fn lemma_parse_ids_of(ids: Seq<Seq<char>>, rest: Seq<u8>)
    requires
        forall|i: int| 0 <= i < ids.len() ==> #[trigger] encode_utf8(ids[i]).len() < pow256(8),
    ensures
        parse_ids(encode_ids(ids) + rest, ids.len() as int) == Option::Some((ids, rest)),
    decreases ids.len(),
{
    if ids.len() == 0 {
        assert(encode_ids(ids) + rest =~= rest);
    } else {
        let d = ids.drop_first();
        assert(encode_ids(ids) + rest =~= encode_str(ids[0]) + (encode_ids(d) + rest));
        lemma_parse_str_of(ids[0], encode_ids(d) + rest);
        assert forall|i: int|
            0 <= i < d.len() implies #[trigger] encode_utf8(d[i]).len() < pow256(8) by {
            assert(d[i] == ids[i + 1]);
        }
        lemma_parse_ids_of(d, rest);
        assert(seq![ids[0]] + d =~= ids);
    }
}

/// Reading back all encoded coordinates recovers them exactly.
proof fn lemma_parse_data_of(data: Seq<int>, rest: Seq<u8>)
    requires
        forall|i: int| 0 <= i < data.len() ==> -0x80000000 <= #[trigger] data[i] < 0x80000000,
    ensures
        parse_data(encode_data(data) + rest, data.len() as int) == Option::Some((data, rest)),
    decreases data.len(),
{
    if data.len() == 0 {
        assert(encode_data(data) + rest =~= rest);
    } else {
        let d = data.drop_first();
        assert(encode_data(data) + rest =~= le_bytes(comp_offset(data[0]), 4) + (encode_data(d)
            + rest));
        lemma_parse_comp_of(data[0], encode_data(d) + rest);
        assert forall|i: int|
            0 <= i < d.len() implies -0x80000000 <= #[trigger] d[i] < 0x80000000 by {
            assert(d[i] == data[i + 1]);
        }
        lemma_parse_data_of(d, rest);
        assert(seq![data[0]] + d =~= data);
    }
}

/// The round-trip law: decoding the encoding of any well-formed store whose
/// counts, coordinates and identifier lengths fit the machine yields exactly
/// that store — its record count, dimension, identifier order and coordinates
/// all survive persistence unchanged.
pub proof fn lemma_codec_round_trip(m: StoreModel)
    requires
        m.wf(),
        m.ids.len() <= usize::MAX,
        m.data.len() <= usize::MAX,
        forall|i: int|
            0 <= i < m.data.len() ==> -0x80000000 <= #[trigger] m.data[i] < 0x80000000,
        forall|i: int|
            0 <= i < m.ids.len() ==> #[trigger] encode_utf8(m.ids[i]).len()
                < 0x10000000000000000,
    ensures
        decode_spec(encode_spec(m)) == Option::Some(m),
{
    lemma_pow256_values();
    let tail = match m.dim {
        Option::None => seq![0u8],
        Option::Some(d) => seq![1u8] + le_bytes(d, 8),
    };
    let b = encode_spec(m);
    let s1 = encode_ids(m.ids) + (le_bytes(m.data.len() as int, 8) + (encode_data(m.data)
        + tail));
    assert(b =~= le_bytes(m.ids.len() as int, 8) + s1);
    lemma_parse_u64_of(m.ids.len() as int, s1);
    let s2 = le_bytes(m.data.len() as int, 8) + (encode_data(m.data) + tail);
    lemma_parse_ids_of(m.ids, s2);
    let s3 = encode_data(m.data) + tail;
    lemma_parse_u64_of(m.data.len() as int, s3);
    lemma_parse_data_of(m.data, tail);
    match m.dim {
        Option::None => {
            assert(parse_dim(tail) == Option::Some(Option::<int>::None));
        },
        Option::Some(d) => {
            lemma_le_bytes_val(d, 8);
            assert(tail.len() == 9 && tail[0] == 1);
            assert(tail.skip(1) =~= le_bytes(d, 8));
            assert(parse_dim(tail) == Option::Some(Option::Some(d)));
        },
    }
    assert(decode_spec(b) == Option::Some(m));
}

} // verus!
