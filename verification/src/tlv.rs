//! The typed values that kvspace stores: little-endian integers, UTF-32
//! text, and the body and shape that a decoded TLV head designates.
use vstd::prelude::*;
use vstd::utf8::{decode_utf8, is_scalar, valid_utf8};
use vstd::arithmetic::div_mod::lemma_mod_breakdown;

use crate::text::{chars_of, eq_lit, string_of};

verus! {

// ── little-endian integers ──────────────────────────────────────────

/// `256^n`.
pub open spec fn pow256(n: nat) -> nat
    decreases n,
{
    if n == 0 {
        1
    } else {
        256 * pow256((n - 1) as nat)
    }
}

/// The unsigned value of little-endian bytes.
pub open spec fn le_value(s: Seq<u8>) -> nat
    decreases s.len(),
{
    if s.len() == 0 {
        0
    } else {
        s[0] as nat + 256 * le_value(s.drop_first())
    }
}

/// The two's-complement value of little-endian bytes.
pub open spec fn le_signed(s: Seq<u8>) -> int {
    if s.len() > 0 && le_value(s) >= 128 * pow256((s.len() - 1) as nat) {
        le_value(s) - pow256(s.len())
    } else {
        le_value(s) as int
    }
}

/// The `n` little-endian bytes of `u` (modulo `256^n`).
pub open spec fn le_bytes(u: nat, n: nat) -> Seq<u8>
    decreases n,
{
    if n == 0 {
        Seq::empty()
    } else {
        seq![(u % 256) as u8] + le_bytes(u / 256, (n - 1) as nat)
    }
}

/// `v` as an unsigned 64-bit pattern (two's complement).
pub open spec fn twos64(v: int) -> nat {
    if v >= 0 {
        v as nat
    } else {
        (v + pow256(8)) as nat
    }
}

pub proof fn lemma_pow256_values()
    ensures
        pow256(0) == 1,
        pow256(1) == 256,
        pow256(2) == 65536,
        pow256(3) == 16777216,
        pow256(4) == 4294967296,
        pow256(7) == 72057594037927936,
        pow256(8) == 18446744073709551616,
{
    reveal_with_fuel(pow256, 9);
}

pub proof fn lemma_le_value_bound(s: Seq<u8>)
    ensures
        le_value(s) < pow256(s.len()),
    decreases s.len(),
{
    if s.len() > 0 {
        lemma_le_value_bound(s.drop_first());
    }
}

/// Reading back what `le_bytes` wrote gives the value modulo `256^n`.
pub proof fn lemma_le_bytes(u: nat, n: nat)
    ensures
        le_bytes(u, n).len() == n,
        le_value(le_bytes(u, n)) == u % pow256(n),
    decreases n,
{
    if n > 0 {
        lemma_le_bytes(u / 256, (n - 1) as nat);
        let s = le_bytes(u, n);
        assert(s.drop_first() =~= le_bytes(u / 256, (n - 1) as nat));
        assert(pow256((n - 1) as nat) > 0) by {
            lemma_pow256_pos((n - 1) as nat);
        }
        lemma_mod_breakdown(u as int, 256, pow256((n - 1) as nat) as int);
    } else {
        assert(u % 1 == 0);
    }
}

proof fn lemma_pow256_pos(n: nat)
    ensures
        pow256(n) > 0,
    decreases n,
{
    if n > 0 {
        lemma_pow256_pos((n - 1) as nat);
    }
}

/// `read_int`'s value of raw bytes: the two's-complement value of 1, 2, 4
/// or 8 little-endian bytes, and 0 for any other length.
pub open spec fn read_int_spec(raw: Seq<u8>) -> int {
    if raw.len() == 1 || raw.len() == 2 || raw.len() == 4 || raw.len() == 8 {
        le_signed(raw)
    } else {
        0
    }
}

/// The signed little-endian integer in `raw` (1, 2, 4 or 8 bytes); 0 for any
/// other length.
pub fn read_int(raw: &[u8]) -> (r: i64)
    ensures
        r == read_int_spec(raw@),
{
    let n = raw.len();
    if n != 1 && n != 2 && n != 4 && n != 8 {
        return 0;
    }
    proof {
        lemma_pow256_values();
    }
    let mut acc: u64 = 0;
    let mut i: usize = n;
    proof {
        assert(raw@.subrange(n as int, n as int) =~= Seq::<u8>::empty());
    }
    while i > 0
        invariant
            0 <= i <= n,
            n == raw@.len(),
            n <= 8,
            pow256(8) == 18446744073709551616,
            acc == le_value(raw@.subrange(i as int, n as int)),
        decreases i,
    {
        let ghost tail = raw@.subrange(i as int, n as int);
        i = i - 1;
        proof {
            let s = raw@.subrange(i as int, n as int);
            assert(s.drop_first() =~= tail);
            lemma_le_value_bound(tail);
            lemma_pow256_monotone(tail.len(), 7);
        }
        acc = acc * 256 + raw[i] as u64;
    }
    assert(raw@.subrange(0, n as int) =~= raw@);
    proof {
        lemma_le_value_bound(raw@);
    }
    let (half, full): (u64, i128) = if n == 1 {
        (128, 256)
    } else if n == 2 {
        (32768, 65536)
    } else if n == 4 {
        (2147483648, 4294967296)
    } else {
        (9223372036854775808, 18446744073709551616)
    };
    proof {
        reveal_with_fuel(pow256, 9);
    }
    if acc >= half {
        (acc as i128 - full) as i64
    } else {
        acc as i64
    }
}

proof fn lemma_pow256_monotone(a: nat, b: nat)
    requires
        a <= b,
    ensures
        pow256(a) <= pow256(b),
    decreases b,
{
    if a < b {
        lemma_pow256_monotone(a, (b - 1) as nat);
        lemma_pow256_pos((b - 1) as nat);
    }
}

/// The `n` little-endian bytes of `u`.
pub fn le_bytes_of(u: u64, n: usize) -> (v: Vec<u8>)
    requires
        n <= 8,
    ensures
        v@ == le_bytes(u as nat, n as nat),
    decreases n,
{
    if n == 0 {
        Vec::new()
    } else {
        let mut v = le_bytes_of(u / 256, n - 1);
        v.insert(0, (u % 256) as u8);
        proof {
            assert(v@ =~= seq![(u % 256) as u8] + le_bytes((u / 256) as nat, (n - 1) as nat));
        }
        v
    }
}

/// The eight little-endian bytes of `v` (`v.to_le_bytes()`).
pub fn i64_le_bytes(v: i64) -> (b: Vec<u8>)
    ensures
        b@ == le_bytes(twos64(v as int), 8),
{
    proof {
        lemma_pow256_values();
    }
    let u: u64 = if v >= 0 {
        v as u64
    } else {
        ((v + i64::MAX) + 1) as u64 + 9223372036854775808u64
    };
    le_bytes_of(u, 8)
}

/// Reading eight bytes back gives the integer that was written.
pub proof fn lemma_i64_roundtrip(v: i64)
    ensures
        read_int_spec(le_bytes(twos64(v as int), 8)) == v,
{
    lemma_pow256_values();
    let u = twos64(v as int);
    lemma_le_bytes(u, 8);
    assert(u < pow256(8));
    assert(u % pow256(8) == u) by {
        vstd::arithmetic::div_mod::lemma_small_mod(u, pow256(8));
    }
}

// ── UTF-32 text ────────────────────────────────────────────────────

/// The character with code `u`, or U+FFFD where `u` is no scalar value
/// (`char::from_u32(u).unwrap_or('\u{FFFD}')`).
pub open spec fn char_of(u: nat) -> char {
    if u <= 0xffff_ffff && is_scalar(u as u32) {
        (u as u32) as char
    } else {
        '\u{FFFD}'
    }
}

/// The characters of UTF-32LE bytes; a trailing part shorter than four
/// bytes is dropped.
pub open spec fn utf32_decode(raw: Seq<u8>) -> Seq<char> {
    Seq::new(raw.len() / 4, |i: int| char_of(le_value(raw.subrange(4 * i, 4 * i + 4))))
}

/// The UTF-32LE bytes of `s`.
pub open spec fn utf32_bytes(s: Seq<char>) -> Seq<u8>
    decreases s.len(),
{
    if s.len() == 0 {
        Seq::empty()
    } else {
        utf32_bytes(s.drop_last()) + le_bytes((s.last() as u32) as nat, 4)
    }
}

/// `char::from_u32`: the contract claims it gives the character of a
/// scalar value and `None` for any other code.
#[verifier::external_body]
fn char_from_u32(u: u32) -> (c: Option<char>)
    ensures
        is_scalar(u) ==> c == Some(u as char),
        !is_scalar(u) ==> c is None,
{
    char::from_u32(u)
}

/// The text of UTF-32LE bytes; codes that are no character become U+FFFD.
pub fn utf32_to_string(raw: &[u8]) -> (s: String)
    ensures
        s@ == utf32_decode(raw@),
{
    let n = raw.len() / 4;
    let mut out: Vec<char> = Vec::new();
    let mut i: usize = 0;
    let mut pos: usize = 0;
    proof {
        lemma_pow256_values();
    }
    while i < n
        invariant
            0 <= i <= n,
            n == raw@.len() / 4,
            pos == 4 * i,
            out@.len() == i,
            forall|j: int| 0 <= j < i ==> out@[j] == #[trigger] utf32_decode(raw@)[j],
        decreases n - i,
    {
        let u: u32 = raw[pos] as u32 + 256 * raw[pos + 1] as u32 + 65536 * raw[pos + 2] as u32
            + 16777216 * raw[pos + 3] as u32;
        proof {
            let chunk = raw@.subrange(4 * i, 4 * i + 4);
            reveal_with_fuel(le_value, 5);
            assert(chunk.drop_first() =~= seq![chunk[1], chunk[2], chunk[3]]);
            assert(chunk.drop_first().drop_first() =~= seq![chunk[2], chunk[3]]);
            assert(chunk.drop_first().drop_first().drop_first() =~= seq![chunk[3]]);
            assert(chunk.drop_first().drop_first().drop_first().drop_first() =~= Seq::<
                u8,
            >::empty());
            assert(le_value(chunk) == u);
        }
        let c = match char_from_u32(u) {
            Some(c) => c,
            None => '\u{FFFD}',
        };
        out.push(c);
        i = i + 1;
        pos = pos + 4;
    }
    assert(out@ =~= utf32_decode(raw@));
    string_of(&out)
}

/// The UTF-32LE bytes of `s` (what `set_kv` stores as `char/utf32`).
pub fn utf32_encode(s: &str) -> (b: Vec<u8>)
    ensures
        b@ == utf32_bytes(s@),
{
    let cs = chars_of(s);
    let mut out: Vec<u8> = Vec::new();
    let mut i: usize = 0;
    proof {
        assert(cs@.subrange(0, 0) =~= Seq::<char>::empty());
    }
    while i < cs.len()
        invariant
            0 <= i <= cs@.len(),
            cs@ == s@,
            out@ == utf32_bytes(cs@.subrange(0, i as int)),
        decreases cs@.len() - i,
    {
        let u: u32 = cs[i] as u32;
        let mut b = le_bytes_of(u as u64, 4);
        proof {
            let next = cs@.subrange(0, i + 1);
            assert(next.drop_last() =~= cs@.subrange(0, i as int));
        }
        out.append(&mut b);
        i = i + 1;
    }
    assert(cs@.subrange(0, cs@.len() as int) =~= cs@);
    out
}

proof fn lemma_utf32_bytes_shape(s: Seq<char>)
    ensures
        utf32_bytes(s).len() == 4 * s.len(),
        forall|i: int|
            0 <= i < s.len() ==> #[trigger] utf32_bytes(s).subrange(4 * i, 4 * i + 4) == le_bytes(
                (s[i] as u32) as nat,
                4,
            ),
    decreases s.len(),
{
    if s.len() > 0 {
        let p = s.drop_last();
        lemma_utf32_bytes_shape(p);
        lemma_le_bytes((s.last() as u32) as nat, 4);
        let b = utf32_bytes(s);
        assert forall|i: int| 0 <= i < s.len() implies #[trigger] b.subrange(4 * i, 4 * i + 4)
            == le_bytes((s[i] as u32) as nat, 4) by {
            if i < s.len() - 1 {
                assert(b.subrange(4 * i, 4 * i + 4) =~= utf32_bytes(p).subrange(4 * i, 4 * i + 4));
                assert(p[i] == s[i]);
            } else {
                assert(b.subrange(4 * i, 4 * i + 4) =~= le_bytes((s.last() as u32) as nat, 4));
            }
        }
    }
}

/// Text written as UTF-32 reads back unchanged.
pub proof fn lemma_utf32_roundtrip(s: Seq<char>)
    ensures
        utf32_decode(utf32_bytes(s)) == s,
{
    lemma_utf32_bytes_shape(s);
    lemma_pow256_values();
    let d = utf32_decode(utf32_bytes(s));
    assert forall|i: int| 0 <= i < s.len() implies #[trigger] d[i] == s[i] by {
        let c = s[i];
        lemma_le_bytes((c as u32) as nat, 4);
        vstd::utf8::char_is_scalar(c);
        vstd::utf8::char_u32_cast(c, c as u32);
        assert((c as u32) < 4294967296);
        vstd::arithmetic::div_mod::lemma_small_mod(c as u32 as nat, pow256(4));
    }
    assert(d =~= s);
}

// ── lossy UTF-8 ────────────────────────────────────────────────────

/// What `String::from_utf8_lossy` makes of bytes that are not valid UTF-8.
pub uninterp spec fn lossy_utf8(b: Seq<u8>) -> Seq<char>;

/// The text of UTF-8 bytes, with invalid sequences replaced as
/// `String::from_utf8_lossy` replaces them.
pub open spec fn utf8_text(b: Seq<u8>) -> Seq<char> {
    if valid_utf8(b) {
        decode_utf8(b)
    } else {
        lossy_utf8(b)
    }
}

/// `String::from_utf8_lossy`: the contract claims what its documentation
/// states, that valid UTF-8 is decoded unchanged, and names the result for
/// other bytes; how invalid sequences are replaced is left unsaid.
#[verifier::external_body]
pub(crate) fn utf8_lossy(b: &[u8]) -> (s: String)
    ensures
        s@ == (if valid_utf8(b@) {
            decode_utf8(b@)
        } else {
            lossy_utf8(b@)
        }),
{
    String::from_utf8_lossy(b).into_owned()
}

// ── TLV kinds, heads and bodies ─────────────────────────────────────

/// Byte width of one element of an element kind; 0 for other kinds.
pub open spec fn elem_size_spec(kind: Seq<char>) -> nat {
    if kind == "int8"@ || kind == "uint8"@ || kind == "bool"@ {
        1
    } else if kind == "int16"@ || kind == "uint16"@ {
        2
    } else if kind == "int32"@ || kind == "uint32"@ || kind == "float32"@ {
        4
    } else if kind == "int64"@ || kind == "uint64"@ || kind == "float64"@ {
        8
    } else {
        0
    }
}

/// The byte width of one element of `kind`.
pub fn elem_size(kind: &str) -> (n: usize)
    ensures
        n == elem_size_spec(kind@),
{
    let k = chars_of(kind);
    if eq_lit(&k, "int8") || eq_lit(&k, "uint8") || eq_lit(&k, "bool") {
        1
    } else if eq_lit(&k, "int16") || eq_lit(&k, "uint16") {
        2
    } else if eq_lit(&k, "int32") || eq_lit(&k, "uint32") || eq_lit(&k, "float32") {
        4
    } else if eq_lit(&k, "int64") || eq_lit(&k, "uint64") || eq_lit(&k, "float64") {
        8
    } else {
        0
    }
}

/// What the kvspace head decoder reports of a stored value: its element
/// kind and dimensions (as the kind expression spells them), and where its
/// body lies.
pub struct TlvHead {
    pub kind: String,
    pub dims: Vec<i32>,
    pub body_offset: usize,
    pub body_len: i64,
}

/// The element count of a value: the product of its dimensions, each
/// counted as at least 1.
pub open spec fn dims_product(d: Seq<i32>) -> nat
    decreases d.len(),
{
    if d.len() == 0 {
        1
    } else {
        dims_product(d.drop_last()) * (if d.last() < 1 {
            1
        } else {
            d.last() as nat
        })
    }
}

/// The kind, body and element count of stored bytes `data` whose head
/// decoded to `head` (`None`: the decoder refused them); empty data or a
/// refused head give no kind, no body and one element, and a body that
/// would run past the data is empty.
pub open spec fn tlv_parts(data: Seq<u8>, head: Option<TlvHead>) -> (Seq<char>, Seq<u8>, nat) {
    match head {
        Some(h) if data.len() > 0 => {
            let bo = h.body_offset as int;
            let bl = if h.body_len < 0 {
                0
            } else {
                h.body_len as int
            };
            let raw = if bo + bl <= data.len() {
                data.subrange(bo, bo + bl)
            } else {
                Seq::empty()
            };
            (h.kind@, raw, dims_product(h.dims@))
        },
        _ => (Seq::empty(), Seq::empty(), 1),
    }
}

/// A head whose element count fits in `usize`.
pub open spec fn head_fits(head: Option<TlvHead>) -> bool {
    match head {
        Some(h) => dims_product(h.dims@) <= usize::MAX,
        None => true,
    }
}

/// Copies `data[lo..hi]`.
pub(crate) fn copy_range(data: &[u8], lo: usize, hi: usize) -> (v: Vec<u8>)
    requires
        lo <= hi <= data@.len(),
    ensures
        v@ == data@.subrange(lo as int, hi as int),
{
    let mut v: Vec<u8> = Vec::new();
    let mut i = lo;
    while i < hi
        invariant
            lo <= i <= hi <= data@.len(),
            v@ == data@.subrange(lo as int, i as int),
        decreases hi - i,
    {
        v.push(data[i]);
        i = i + 1;
        assert(v@ =~= data@.subrange(lo as int, i as int));
    }
    v
}

pub(crate) proof fn lemma_dims_product_grows(d: Seq<i32>)
    ensures
        dims_product(d) >= 1,
        d.len() > 0 ==> dims_product(d.drop_last()) <= dims_product(d),
    decreases d.len(),
{
    if d.len() > 0 {
        lemma_dims_product_grows(d.drop_last());
        let f: nat = if d.last() < 1 {
            1
        } else {
            d.last() as nat
        };
        assert(dims_product(d.drop_last()) * f >= dims_product(d.drop_last())) by (nonlinear_arith)
            requires
                f >= 1,
        ;
    }
}

/// The kind, body and element count of stored bytes, given what the head
/// decoder made of them.
pub fn parse_tlv(data: &[u8], head: &Option<TlvHead>) -> (r: (String, Vec<u8>, usize))
    requires
        head_fits(*head),
    ensures
        (r.0@, r.1@, r.2 as nat) == tlv_parts(data@, *head),
{
    match head {
        Some(h) if data.len() > 0 => {
            let fits = h.body_offset <= data.len() && (h.body_len < 0 || (h.body_len as u64) <= (
            data.len() - h.body_offset) as u64);
            let raw = if fits {
                let bl: usize = if h.body_len < 0 {
                    0
                } else {
                    h.body_len as usize
                };
                copy_range(data, h.body_offset, h.body_offset + bl)
            } else {
                Vec::new()
            };
            let mut arr_len: usize = 1;
            let mut i: usize = 0;
            while i < h.dims.len()
                invariant
                    0 <= i <= h.dims@.len(),
                    dims_product(h.dims@) <= usize::MAX,
                    arr_len == dims_product(h.dims@.subrange(0, i as int)),
                decreases h.dims@.len() - i,
            {
                let d = h.dims[i];
                let f: usize = if d < 1 {
                    1
                } else {
                    d as usize
                };
                proof {
                    let next = h.dims@.subrange(0, i + 1);
                    assert(next.drop_last() =~= h.dims@.subrange(0, i as int));
                    lemma_dims_product_prefix(h.dims@, i + 1);
                }
                arr_len = arr_len * f;
                i = i + 1;
            }
            proof {
                assert(h.dims@.subrange(0, h.dims@.len() as int) =~= h.dims@);
            }
            (h.kind.clone(), raw, arr_len)
        },
        _ => (String::new(), Vec::new(), 1),
    }
}

pub(crate) proof fn lemma_dims_product_prefix(d: Seq<i32>, k: int)
    requires
        0 <= k <= d.len(),
    ensures
        dims_product(d.subrange(0, k)) <= dims_product(d),
    decreases d.len() - k,
{
    if k < d.len() {
        lemma_dims_product_prefix(d, k + 1);
        let next = d.subrange(0, k + 1);
        assert(next.drop_last() =~= d.subrange(0, k));
        lemma_dims_product_grows(next);
    } else {
        assert(d.subrange(0, k) =~= d);
    }
}

/// The text a stored body holds: UTF-32LE for `char/utf32`, lossy UTF-8 for
/// any other kind.
pub open spec fn body_text(kind: Seq<char>, body: Seq<u8>) -> Seq<char> {
    if kind == "char/utf32"@ {
        utf32_decode(body)
    } else {
        utf8_text(body)
    }
}

/// The text of a stored value's body (what `get_kv` returns).
pub fn text_of(kind: &str, body: &[u8]) -> (s: String)
    ensures
        s@ == body_text(kind@, body@),
{
    let k = chars_of(kind);
    if eq_lit(&k, "char/utf32") {
        utf32_to_string(body)
    } else {
        utf8_lossy(body)
    }
}

} // verus!

verus! {

/// Text stored as `char/utf32` reads back unchanged (`get_kv` after
/// `set_kv`).
pub proof fn lemma_text_roundtrip(s: Seq<char>)
    ensures
        body_text("char/utf32"@, utf32_bytes(s)) == s,
{
    lemma_utf32_roundtrip(s);
}

} // verus!

verus! {

/// Does the element count of dimensions `dims` fit in `usize`?
pub fn dims_fit(dims: &Vec<i32>) -> (b: bool)
    ensures
        b == (dims_product(dims@) <= usize::MAX),
{
    let mut acc: usize = 1;
    let mut i: usize = 0;
    proof {
        assert(dims@.subrange(0, 0) =~= Seq::<i32>::empty());
    }
    while i < dims.len()
        invariant
            0 <= i <= dims@.len(),
            acc == dims_product(dims@.subrange(0, i as int)),
        decreases dims@.len() - i,
    {
        let d = dims[i];
        let f: usize = if d < 1 {
            1
        } else {
            d as usize
        };
        proof {
            assert(dims@.subrange(0, i + 1).drop_last() =~= dims@.subrange(0, i as int));
        }
        if acc > usize::MAX / f {
            proof {
                assert(acc * f > usize::MAX) by (nonlinear_arith)
                    requires
                        acc > usize::MAX / f,
                        f >= 1,
                ;
                lemma_dims_product_prefix(dims@, i + 1);
            }
            return false;
        }
        proof {
            assert(acc * f <= usize::MAX) by (nonlinear_arith)
                requires
                    acc <= usize::MAX / f,
                    f >= 1,
            ;
        }
        acc = acc * f;
        i = i + 1;
    }
    proof {
        assert(dims@.subrange(0, dims@.len() as int) =~= dims@);
    }
    true
}

} // verus!
