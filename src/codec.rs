use vstd::prelude::*;

use crate::bits::{is_packing, lemma_unpack_packing, unpack, BitBuffer};
use crate::table::{
    code_table, codes, distinct_symbols, has_symbol, is_prefix, lemma_codes, lemma_table_len,
    prefix_free, table_view, CodeEntry,
};
use crate::tree::{build_huffman_tree, huffman_tree_of};

verus! {

/// Why a decode or an encode could not complete.
#[derive(Debug, Clone, Copy, PartialEq, Eq, Structural)]
pub enum CodecError {
    /// A non-zero symbol count came with an empty code table.
    InvalidArgument,
    /// The bits ran out before the requested number of symbols was decoded.
    DataCorruption,
    /// A symbol to encode has no row in the code table.
    InternalConsistency,
}

/// The path of the first row at or after index `i` that holds symbol `s`.
pub open spec fn path_from(t: Seq<(u8, Seq<bool>)>, s: u8, i: int) -> Option<Seq<bool>>
    decreases t.len() - i,
{
    if i < 0 || i >= t.len() {
        None
    } else if t[i].0 == s {
        Some(t[i].1)
    } else {
        path_from(t, s, i + 1)
    }
}

/// The symbol of the first row at or after index `i` whose path is `p`.
pub open spec fn symbol_from(t: Seq<(u8, Seq<bool>)>, p: Seq<bool>, i: int) -> Option<u8>
    decreases t.len() - i,
{
    if i < 0 || i >= t.len() {
        None
    } else if t[i].1 == p {
        Some(t[i].0)
    } else {
        symbol_from(t, p, i + 1)
    }
}

/// The bits of `data` under table `t`: the paths of its symbols one after the
/// other, or `None` where a symbol has no row.
pub open spec fn encode_bits(t: Seq<(u8, Seq<bool>)>, data: Seq<u8>) -> Option<Seq<bool>>
    decreases data.len(),
{
    if data.len() == 0 {
        Some(Seq::empty())
    } else {
        match (encode_bits(t, data.drop_last()), path_from(t, data.last(), 0)) {
            (Some(b), Some(p)) => Some(b + p),
            _ => None,
        }
    }
}

/// Decoding `remaining` symbols from `bits` where the candidate path so far is
/// `bits[start..pos]`: as soon as the candidate equals a row's path, that
/// row's symbol is emitted and a new candidate starts; otherwise the next bit
/// is taken, and running out of bits gives `None`.
pub open spec fn decode_run(
    t: Seq<(u8, Seq<bool>)>,
    bits: Seq<bool>,
    start: int,
    pos: int,
    remaining: nat,
) -> Option<Seq<u8>>
    decreases remaining, bits.len() - pos,
{
    if remaining == 0 {
        Some(Seq::empty())
    } else {
        match symbol_from(t, bits.subrange(start, pos), 0) {
            Some(s) => match decode_run(t, bits, pos, pos, (remaining - 1) as nat) {
                Some(rest) => Some(seq![s] + rest),
                None => None,
            },
            None => if pos < 0 || pos >= bits.len() {
                None
            } else {
                decode_run(t, bits, start, pos + 1, remaining)
            },
        }
    }
}

/// The first `count` symbols that `bits` holds under table `t`.
pub open spec fn decode_bits(t: Seq<(u8, Seq<bool>)>, bits: Seq<bool>, count: nat) -> Option<
    Seq<u8>,
> {
    decode_run(t, bits, 0, 0, count)
}

pub open spec fn prepend(a: Seq<u8>, o: Option<Seq<u8>>) -> Option<Seq<u8>> {
    match o {
        Some(r) => Some(a + r),
        None => None,
    }
}

/// A table fit for decoding: prefix-free, one row per symbol.
pub open spec fn valid_table(t: Seq<(u8, Seq<bool>)>) -> bool {
    prefix_free(t) && distinct_symbols(t)
}

proof fn lemma_path_from(t: Seq<(u8, Seq<bool>)>, s: u8, i: int)
    requires
        0 <= i <= t.len(),
    ensures
        path_from(t, s, i) is None <==> forall|k: int| i <= k < t.len() ==> #[trigger] t[k].0 != s,
        path_from(t, s, i) matches Some(p) ==> exists|k: int|
            i <= k < t.len() && #[trigger] t[k].0 == s && t[k].1 == p,
    decreases t.len() - i,
{
    if i < t.len() {
        lemma_path_from(t, s, i + 1);
    }
}

proof fn lemma_symbol_from(t: Seq<(u8, Seq<bool>)>, p: Seq<bool>, i: int)
    requires
        0 <= i <= t.len(),
    ensures
        symbol_from(t, p, i) is None <==> forall|k: int| i <= k < t.len() ==> #[trigger] t[k].1 != p,
        symbol_from(t, p, i) matches Some(s) ==> exists|k: int|
            i <= k < t.len() && #[trigger] t[k].1 == p && t[k].0 == s,
    decreases t.len() - i,
{
    if i < t.len() {
        lemma_symbol_from(t, p, i + 1);
    }
}

/// In a valid table, the row `j` is what both lookups find.
proof fn lemma_lookup_row(t: Seq<(u8, Seq<bool>)>, j: int)
    requires
        valid_table(t),
        0 <= j < t.len(),
    ensures
        path_from(t, t[j].0, 0) == Some(t[j].1),
        symbol_from(t, t[j].1, 0) == Some(t[j].0),
{
    lemma_path_from(t, t[j].0, 0);
    lemma_symbol_from(t, t[j].1, 0);
    let k = choose|k: int| 0 <= k < t.len() && #[trigger] t[k].0 == t[j].0 && t[k].1 == path_from(
        t,
        t[j].0,
        0,
    )->Some_0;
    assert(k == j);
    let m = choose|m: int| 0 <= m < t.len() && #[trigger] t[m].1 == t[j].1 && t[m].0 == symbol_from(
        t,
        t[j].1,
        0,
    )->Some_0;
    if m != j {
        assert(is_prefix(t[m].1, t[j].1));
    }
}

/// A proper prefix of a row's path in a valid table is no row's path.
proof fn lemma_no_shorter_row(t: Seq<(u8, Seq<bool>)>, j: int, w: Seq<bool>)
    requires
        valid_table(t),
        0 <= j < t.len(),
        w.len() < t[j].1.len(),
        forall|k: int| 0 <= k < w.len() ==> w[k] == t[j].1[k],
    ensures
        symbol_from(t, w, 0) is None,
{
    lemma_symbol_from(t, w, 0);
    assert forall|k: int| 0 <= k < t.len() implies #[trigger] t[k].1 != w by {
        if t[k].1 == w {
            assert(k != j);
            assert(is_prefix(t[k].1, t[j].1));
        }
    }
}

/// Taking the bits of row `j`'s path one at a time, the candidate matches no
/// row before the whole path is read.
proof fn lemma_walk(t: Seq<(u8, Seq<bool>)>, bits: Seq<bool>, j: int, p: int, l: int, rem: nat)
    requires
        valid_table(t),
        0 <= j < t.len(),
        0 <= p,
        0 <= l <= t[j].1.len(),
        p + t[j].1.len() <= bits.len(),
        bits.subrange(p, p + t[j].1.len()) == t[j].1,
        rem > 0,
    ensures
        decode_run(t, bits, p, p + l, rem) == decode_run(t, bits, p, p + t[j].1.len(), rem),
    decreases t[j].1.len() - l,
{
    if l < t[j].1.len() {
        let w = bits.subrange(p, p + l);
        assert forall|k: int| 0 <= k < w.len() implies w[k] == t[j].1[k] by {
            assert(bits.subrange(p, p + t[j].1.len())[k] == bits[p + k]);
        }
        lemma_no_shorter_row(t, j, w);
        lemma_walk(t, bits, j, p, l + 1, rem);
    }
}

/// Splits the encoding of a sequence into that of its first symbol and the rest.
proof fn lemma_encode_front(t: Seq<(u8, Seq<bool>)>, data: Seq<u8>)
    requires
        data.len() > 0,
        encode_bits(t, data) is Some,
    ensures
        path_from(t, data[0], 0) is Some,
        encode_bits(t, data.drop_first()) is Some,
        encode_bits(t, data)->Some_0 == path_from(t, data[0], 0)->Some_0 + encode_bits(
            t,
            data.drop_first(),
        )->Some_0,
    decreases data.len(),
{
    if data.len() == 1 {
        assert(data.drop_last().len() == 0);
        assert(data.drop_first().len() == 0);
        assert(data.last() == data[0]);
        assert(path_from(t, data[0], 0)->Some_0 + Seq::<bool>::empty() == path_from(
            t,
            data[0],
            0,
        )->Some_0);
    } else {
        let p = data.drop_last();
        lemma_encode_front(t, p);
        assert(p.drop_first() == data.drop_first().drop_last());
        assert(p[0] == data[0]);
        assert(data.drop_first().last() == data.last());
        let a = path_from(t, data[0], 0)->Some_0;
        let b = encode_bits(t, p.drop_first())->Some_0;
        let c = path_from(t, data.last(), 0)->Some_0;
        assert(a + b + c == a + (b + c));
    }
}

/// Every row of a valid table that `data` needs is there: decoding the
/// encoding of `data`, followed by any bits, gives `data` back.
proof fn lemma_decode_encoded(t: Seq<(u8, Seq<bool>)>, data: Seq<u8>, bits: Seq<bool>, p: int)
    requires
        valid_table(t),
        encode_bits(t, data) is Some,
        0 <= p,
        p + encode_bits(t, data)->Some_0.len() <= bits.len(),
        bits.subrange(p, p + encode_bits(t, data)->Some_0.len()) == encode_bits(t, data)->Some_0,
    ensures
        decode_run(t, bits, p, p, data.len()) == Some(data),
    decreases data.len(),
{
    if data.len() > 0 {
        lemma_encode_front(t, data);
        let e = encode_bits(t, data)->Some_0;
        let q = path_from(t, data[0], 0)->Some_0;
        let rest = data.drop_first();
        let er = encode_bits(t, rest)->Some_0;
        lemma_path_from(t, data[0], 0);
        let j = choose|k: int| 0 <= k < t.len() && #[trigger] t[k].0 == data[0] && t[k].1 == q;
        assert(e == q + er);
        assert(bits.subrange(p, p + q.len()) == q) by {
            assert forall|k: int| 0 <= k < q.len() implies bits.subrange(p, p + q.len())[k] == q[k] by {
                assert(bits.subrange(p, p + e.len())[k] == e[k]);
            }
        }
        assert(bits.subrange(p + q.len(), p + q.len() + er.len()) == er) by {
            assert forall|k: int| 0 <= k < er.len() implies bits.subrange(
                p + q.len(),
                p + q.len() + er.len(),
            )[k] == er[k] by {
                assert(bits.subrange(p, p + e.len())[q.len() + k] == e[q.len() + k]);
            }
        }
        lemma_walk(t, bits, j, p, 0, data.len());
        lemma_lookup_row(t, j);
        lemma_decode_encoded(t, rest, bits, p + q.len());
        assert(seq![data[0]] + rest == data);
    }
}

/// Round trip: in a valid table that has a row for every symbol of `data`,
/// decoding the packed encoding of `data` for `data.len()` symbols gives
/// `data` back, whatever the padding of the last byte.
pub proof fn lemma_round_trip(t: Seq<(u8, Seq<bool>)>, data: Seq<u8>, packed: Seq<u8>)
    requires
        valid_table(t),
        encode_bits(t, data) matches Some(b) && is_packing(packed, b),
    ensures
        decode_bits(t, unpack(packed), data.len()) == Some(data),
{
    let b = encode_bits(t, data)->Some_0;
    lemma_unpack_packing(packed, b);
    assert(unpack(packed).subrange(0, b.len() as int) == b);
    lemma_decode_encoded(t, data, unpack(packed), 0);
}


/// Whether two bit paths are equal.
fn same_path(a: &Vec<bool>, b: &Vec<bool>) -> (r: bool)
    ensures
        r == (a@ == b@),
{
    if a.len() != b.len() {
        return false;
    }
    let mut i: usize = 0;
    while i < a.len()
        invariant
            a@.len() == b@.len(),
            i <= a@.len(),
            forall|k: int| 0 <= k < i ==> a@[k] == b@[k],
        decreases a@.len() - i,
    {
        if a[i] != b[i] {
            return false;
        }
        i = i + 1;
    }
    assert(a@ == b@);
    true
}

/// The index of the first row that holds `symbol`.
fn find_symbol(table: &Vec<CodeEntry>, symbol: u8) -> (r: Option<usize>)
    ensures
        match r {
            Some(i) => i < table@.len() && path_from(table_view(table@), symbol, 0) == Some(
                table_view(table@)[i as int].1,
            ),
            None => path_from(table_view(table@), symbol, 0) is None,
        },
{
    let ghost t = table_view(table@);
    let mut i: usize = 0;
    while i < table.len()
        invariant
            i <= table@.len(),
            t == table_view(table@),
            path_from(t, symbol, 0) == path_from(t, symbol, i as int),
        decreases table@.len() - i,
    {
        if table[i].symbol == symbol {
            return Some(i);
        }
        i = i + 1;
    }
    None
}

/// The symbol of the first row whose path is `path`.
fn find_path(table: &Vec<CodeEntry>, path: &Vec<bool>) -> (r: Option<u8>)
    ensures
        r == symbol_from(table_view(table@), path@, 0),
{
    let ghost t = table_view(table@);
    let mut i: usize = 0;
    while i < table.len()
        invariant
            i <= table@.len(),
            t == table_view(table@),
            symbol_from(t, path@, 0) == symbol_from(t, path@, i as int),
        decreases table@.len() - i,
    {
        if same_path(&table[i].path, path) {
            return Some(table[i].symbol);
        }
        i = i + 1;
    }
    None
}

proof fn lemma_encode_prefix(t: Seq<(u8, Seq<bool>)>, data: Seq<u8>, i: int)
    requires
        0 <= i <= data.len(),
        encode_bits(t, data) is Some,
    ensures
        encode_bits(t, data.subrange(0, i)) is Some,
        encode_bits(t, data.subrange(0, i))->Some_0.len() <= encode_bits(t, data)->Some_0.len(),
    decreases data.len() - i,
{
    if i < data.len() {
        let p = data.drop_last();
        assert(p.subrange(0, i) == data.subrange(0, i));
        lemma_encode_prefix(t, p, i);
    } else {
        assert(data.subrange(0, i) == data);
    }
}

/// Appends the path of each byte of `data` in turn. Fails with
/// `InternalConsistency` exactly when some byte of `data` has no row.
pub fn encode(data: &Vec<u8>, table: &Vec<CodeEntry>) -> (r: Result<BitBuffer, CodecError>)
    requires
        encode_bits(table_view(table@), data@) matches Some(b) ==> b.len() <= usize::MAX,
    ensures
        match encode_bits(table_view(table@), data@) {
            Some(b) => r matches Ok(buf) && buf@ == b,
            None => r == Err::<BitBuffer, CodecError>(CodecError::InternalConsistency),
        },
{
    let ghost t = table_view(table@);
    let mut rows: Vec<usize> = Vec::new();
    let mut i: usize = 0;
    while i < data.len()
        invariant
            i <= data@.len(),
            t == table_view(table@),
            rows@.len() == i,
            forall|k: int| 0 <= k < i ==> #[trigger] rows@[k] < table@.len() && path_from(t, data@[k], 0)
                == Some(t[rows@[k] as int].1),
        decreases data@.len() - i,
    {
        match find_symbol(table, data[i]) {
            Some(j) => rows.push(j),
            None => {
                proof {
                    lemma_encode_missing(t, data@, i as int);
                }
                return Err(CodecError::InternalConsistency);
            },
        }
        i = i + 1;
    }
    proof {
        assert forall|k: int| 0 <= k < data@.len() implies path_from(t, #[trigger] data@[k], 0) is Some by {
            assert(rows@[k] < table@.len());
        }
        lemma_encode_found(t, data@, data@.len() as int);
        assert(data@.subrange(0, data@.len() as int) == data@);
    }
    let mut buf = BitBuffer::new();
    let mut k: usize = 0;
    while k < data.len()
        invariant
            k <= data@.len(),
            t == table_view(table@),
            rows@.len() == data@.len(),
            forall|m: int| 0 <= m < data@.len() ==> #[trigger] rows@[m] < table@.len() && path_from(t, data@[m], 0)
                == Some(t[rows@[m] as int].1),
            encode_bits(t, data@) is Some,
            encode_bits(t, data@)->Some_0.len() <= usize::MAX,
            encode_bits(t, data@.subrange(0, k as int)) == Some(buf@),
        decreases data@.len() - k,
    {
        let j = rows[k];
        let ghost pre = data@.subrange(0, k as int);
        let ghost next = data@.subrange(0, k + 1);
        proof {
            assert(next.drop_last() == pre);
            assert(next.last() == data@[k as int]);
            lemma_encode_prefix(t, data@, k + 1);
            assert(t[j as int].1 == table@[j as int].path@);
        }
        buf.append(&table[j].path);
        k = k + 1;
    }
    assert(data@.subrange(0, data@.len() as int) == data@);
    Ok(buf)
}

proof fn lemma_encode_found(t: Seq<(u8, Seq<bool>)>, data: Seq<u8>, i: int)
    requires
        0 <= i <= data.len(),
        forall|k: int| 0 <= k < i ==> path_from(t, #[trigger] data[k], 0) is Some,
    ensures
        encode_bits(t, data.subrange(0, i)) is Some,
    decreases i,
{
    if i > 0 {
        lemma_encode_found(t, data, i - 1);
        let s = data.subrange(0, i);
        assert(s.drop_last() == data.subrange(0, i - 1));
        assert(s.last() == data[i - 1]);
    }
}

proof fn lemma_encode_missing(t: Seq<(u8, Seq<bool>)>, data: Seq<u8>, i: int)
    requires
        0 <= i < data.len(),
        path_from(t, data[i], 0) is None,
    ensures
        encode_bits(t, data) is None,
    decreases data.len(),
{
    if i < data.len() - 1 {
        lemma_encode_missing(t, data.drop_last(), i);
    }
}

/// Decodes `count` symbols from `bits` under `table`, taking one bit at a
/// time into a candidate path and emitting a symbol whenever the candidate
/// equals a row's path. Bits after the last symbol are ignored.
pub fn decode(bits: &BitBuffer, count: usize, table: &Vec<CodeEntry>) -> (r: Result<Vec<u8>, CodecError>)
    ensures
        match decode_bits(table_view(table@), bits@, count as nat) {
            Some(out) => r matches Ok(v) && v@ == out,
            None => r == Err::<Vec<u8>, CodecError>(CodecError::DataCorruption),
        },
{
    let ghost t = table_view(table@);
    let ghost b = bits@;
    let n = bits.len();
    let mut out: Vec<u8> = Vec::new();
    let mut cand: Vec<bool> = Vec::new();
    let ghost mut start: int = 0;
    let mut pos: usize = 0;
    assert(b.subrange(0, 0) == Seq::<bool>::empty());
    assert(Seq::<u8>::empty() + decode_bits(t, b, count as nat)->Some_0 == decode_bits(t, b, count as nat)->Some_0);
    while out.len() < count
        invariant
            t == table_view(table@),
            b == bits@,
            n == b.len(),
            0 <= start <= pos <= n,
            out@.len() <= count,
            cand@ == b.subrange(start, pos as int),
            decode_bits(t, b, count as nat) == prepend(out@, decode_run(t, b, start, pos as int, (count - out@.len()) as nat)),
        decreases count - out@.len(), n - pos,
    {
        match find_path(table, &cand) {
            Some(s) => {
                let ghost rest = decode_run(t, b, pos as int, pos as int, (count - out@.len() - 1) as nat);
                proof {
                    if rest is Some {
                        assert(out@.push(s) + rest->Some_0 == out@ + (seq![s] + rest->Some_0));
                    }
                }
                out.push(s);
                cand = Vec::new();
                proof {
                    start = pos as int;
                    assert(b.subrange(start, pos as int) == Seq::<bool>::empty());
                }
            },
            None => {
                if pos >= n {
                    return Err(CodecError::DataCorruption);
                }
                let bit = bits.get(pos).unwrap();
                cand.push(bit);
                pos = pos + 1;
                assert(cand@ == b.subrange(start, pos as int));
            },
        }
    }
    proof {
        assert(out@ + Seq::<u8>::empty() == out@);
    }
    Ok(out)
}


/// What `compress` hands back: the packed bits, the number of symbols they
/// encode, and the code table they were encoded with.
pub struct CompressedPayload {
    pub data: Vec<u8>,
    pub count: usize,
    pub table: Vec<CodeEntry>,
}

/// `r` is the compression of `input`: its table holds the rows of the
/// Huffman tree of `input` (prefix-free, exactly one row per distinct byte of
/// `input`), its bytes pack the paths of the bytes of `input` in order, and
/// its count is the length of `input`.
pub open spec fn compressed_from(input: Seq<u8>, r: CompressedPayload) -> bool {
    &&& r.count == input.len()
    &&& input.len() > 0 ==> table_view(r.table@) == codes(huffman_tree_of(input), Seq::empty())
    &&& valid_table(table_view(r.table@))
    &&& forall|s: u8| #[trigger] has_symbol(table_view(r.table@), s) <==> input.contains(s)
    &&& encode_bits(table_view(r.table@), input) matches Some(b) && is_packing(r.data@, b)
}

/// `r` is what decompressing `count` symbols of `packed` under table `t`
/// gives: `InvalidArgument` for an empty table and a non-zero count,
/// otherwise the decoded symbols, or `DataCorruption` when the bits run out.
pub open spec fn decompressed_from(
    packed: Seq<u8>,
    count: nat,
    t: Seq<(u8, Seq<bool>)>,
    r: Result<Vec<u8>, CodecError>,
) -> bool {
    if t.len() == 0 && count > 0 {
        r == Err::<Vec<u8>, CodecError>(CodecError::InvalidArgument)
    } else {
        match decode_bits(t, unpack(packed), count) {
            Some(out) => r matches Ok(v) && v@ == out,
            None => r == Err::<Vec<u8>, CodecError>(CodecError::DataCorruption),
        }
    }
}

proof fn lemma_encode_len(t: Seq<(u8, Seq<bool>)>, data: Seq<u8>)
    requires
        forall|i: int| 0 <= i < t.len() ==> (#[trigger] t[i].1).len() <= 255,
        encode_bits(t, data) is Some,
    ensures
        encode_bits(t, data)->Some_0.len() <= 255 * data.len(),
    decreases data.len(),
{
    if data.len() > 0 {
        lemma_encode_len(t, data.drop_last());
        lemma_path_from(t, data.last(), 0);
    }
}

/// Compresses `data`: counts its bytes, builds their Huffman tree, derives
/// the code table from it and packs the path of every byte in order. Empty
/// input gives no bytes, a count of zero and an empty table.
pub fn compress(data: &Vec<u8>) -> (r: CompressedPayload)
    requires
        255 * data@.len() <= usize::MAX,
    ensures
        compressed_from(data@, r),
{
    match build_huffman_tree(data) {
        None => {
            let r = CompressedPayload { data: Vec::new(), count: 0, table: Vec::new() };
            assert(table_view(r.table@) == Seq::<(u8, Seq<bool>)>::empty());
            r
        },
        Some(tree) => {
            let table = code_table(&tree);
            let ghost t = table_view(table@);
            proof {
                let e = Seq::<bool>::empty();
                lemma_codes(tree, e);
                lemma_table_len(codes(tree, e));
                assert forall|i: int| 0 <= i < t.len() implies (#[trigger] t[i].1).len() <= 255 by {
                    assert(e.len() <= codes(tree, e)[i].1.len());
                }
                assert forall|k: int| 0 <= k < data@.len() implies path_from(t, #[trigger] data@[k], 0) is Some by {
                    assert(data@.contains(data@[k]));
                    assert(tree.has(data@[k]));
                    assert(has_symbol(t, data@[k]));
                    lemma_path_from(t, data@[k], 0);
                }
                lemma_encode_found(t, data@, data@.len() as int);
                assert(data@.subrange(0, data@.len() as int) == data@);
                lemma_encode_len(t, data@);
                assert forall|s: u8| #[trigger] has_symbol(t, s) <==> data@.contains(s) by {
                    assert(has_symbol(t, s) <==> tree.has(s));
                }
            }
            let bits = encode(data, &table).unwrap();
            CompressedPayload { data: bits.to_bytes(), count: data.len(), table }
        },
    }
}

/// Decompresses `count` symbols from `data` under `table`.
pub fn decompress(data: &Vec<u8>, count: usize, table: &Vec<CodeEntry>) -> (r: Result<
    Vec<u8>,
    CodecError,
>)
    requires
        8 * data@.len() <= usize::MAX,
    ensures
        decompressed_from(data@, count as nat, table_view(table@), r),
{
    if table.len() == 0 && count > 0 {
        return Err(CodecError::InvalidArgument);
    }
    let bits = BitBuffer::from_bytes(data);
    decode(&bits, count, table)
}

/// Decompressing what `compress` gave for `input` gives `input` back.
pub proof fn lemma_compress_round_trip(
    input: Seq<u8>,
    c: CompressedPayload,
    r: Result<Vec<u8>, CodecError>,
)
    requires
        compressed_from(input, c),
        decompressed_from(c.data@, c.count as nat, table_view(c.table@), r),
    ensures
        r matches Ok(v) && v@ == input,
{
    let t = table_view(c.table@);
    if input.len() > 0 {
        assert(input.contains(input[0]));
        assert(has_symbol(t, input[0]));
    }
    lemma_round_trip(t, input, c.data@);
}

/// Empty input compresses to no bytes, a count of zero and an empty table,
/// and that decompresses to empty output.
pub proof fn lemma_empty_input(c: CompressedPayload, r: Result<Vec<u8>, CodecError>)
    requires
        compressed_from(Seq::<u8>::empty(), c),
        decompressed_from(c.data@, c.count as nat, table_view(c.table@), r),
    ensures
        c.data@.len() == 0,
        c.count == 0,
        c.table@.len() == 0,
        r matches Ok(v) && v@.len() == 0,
{
    let t = table_view(c.table@);
    if t.len() > 0 {
        assert(has_symbol(t, t[0].0));
    }
}

proof fn lemma_run_bound(t: Seq<(u8, Seq<bool>)>, bits: Seq<bool>, start: int, pos: int, rem: nat)
    requires
        forall|i: int| 0 <= i < t.len() ==> (#[trigger] t[i].1).len() > 0,
        0 <= start <= pos <= bits.len(),
        decode_run(t, bits, start, pos, rem) is Some,
    ensures
        rem <= bits.len() - start,
    decreases rem, bits.len() - pos,
{
    if rem > 0 {
        let w = bits.subrange(start, pos);
        lemma_symbol_from(t, w, 0);
        match symbol_from(t, w, 0) {
            Some(s) => {
                let k = choose|k: int| 0 <= k < t.len() && #[trigger] t[k].1 == w && t[k].0 == s;
                assert(t[k].1.len() > 0);
                lemma_run_bound(t, bits, pos, pos, (rem - 1) as nat);
            },
            None => {
                lemma_run_bound(t, bits, start, pos + 1, rem);
            },
        }
    }
}

/// Under a valid table of two or more rows every symbol takes at least one
/// bit, so asking for more symbols than `packed` has bits fails to decode.
pub proof fn lemma_count_beyond_bits(t: Seq<(u8, Seq<bool>)>, packed: Seq<u8>, count: nat)
    requires
        valid_table(t),
        t.len() >= 2,
        count > 8 * packed.len(),
    ensures
        decode_bits(t, unpack(packed), count) is None,
{
    assert forall|i: int| 0 <= i < t.len() implies (#[trigger] t[i].1).len() > 0 by {
        let j = if i == 0 { 1int } else { 0int };
        if t[i].1.len() == 0 {
            assert(is_prefix(t[i].1, t[j].1));
        }
    }
    if decode_bits(t, unpack(packed), count) is Some {
        lemma_run_bound(t, unpack(packed), 0, 0, count);
    }
}

} // verus!
