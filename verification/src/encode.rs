//! JSON → KV subtree: which keys a parsed JSON object writes, and what each
//! key is to hold.
use vstd::prelude::*;
use vstd::utf8::encode_utf8;
use serde_json::Value;

use crate::json::{float_view, is_float_kind, is_int_kind, tlv_json, JsonView};
use crate::text::{chars_of, push_str, string_of};
use crate::tlv::{
    copy_range, elem_size_spec, i64_le_bytes, le_bytes, le_bytes_of, lemma_i64_roundtrip,
    lemma_le_bytes, lemma_pow256_values, pow256, read_int_spec, twos64,
};

verus! {

/// A JSON number as JSON text gives it: its value as an `i64` where it has
/// one, and the bits of its value as an `f64`.
pub struct JsonNumber {
    pub as_i64: Option<i64>,
    pub f64_bits: u64,
}

/// A JSON value as parsed from JSON text; an object lists its members in
/// the order they are visited.
pub enum JsonInput {
    Null,
    Bool(bool),
    Number(JsonNumber),
    Str(String),
    Array(Vec<JsonInput>),
    Object(Vec<(String, JsonInput)>),
}

/// What a key is to hold: an encoding of typed elements, a UTF-8 string,
/// or nothing.
pub enum TlvRequest {
    /// `kind` elements laid out in `raw`; several elements carry one
    /// dimension of length `arr_len`.
    Encode { kind: String, raw: Vec<u8>, arr_len: usize },
    /// The bytes of a UTF-8 string.
    CharBytes(Vec<u8>),
    /// Nothing: the key is left as it is.
    Empty,
}

/// One step of writing a JSON object into kvspace.
pub enum KvWrite {
    /// Make `path` (ending with `/`) a directory.
    MkIndex(String),
    /// Store at the key what the request encodes.
    SetTlv(String, TlvRequest),
}

pub enum RequestView {
    Encode(Seq<char>, Seq<u8>, nat),
    CharBytes(Seq<u8>),
    Empty,
}

pub enum WriteView {
    MkIndex(Seq<char>),
    SetTlv(Seq<char>, RequestView),
}

impl View for TlvRequest {
    type V = RequestView;

    open spec fn view(&self) -> RequestView {
        match self {
            TlvRequest::Encode { kind, raw, arr_len } => RequestView::Encode(
                kind@,
                raw@,
                *arr_len as nat,
            ),
            TlvRequest::CharBytes(b) => RequestView::CharBytes(b@),
            TlvRequest::Empty => RequestView::Empty,
        }
    }
}

impl View for KvWrite {
    type V = WriteView;

    open spec fn view(&self) -> WriteView {
        match self {
            KvWrite::MkIndex(p) => WriteView::MkIndex(p@),
            KvWrite::SetTlv(k, r) => WriteView::SetTlv(k@, r@),
        }
    }
}

pub open spec fn writes_view(s: Seq<KvWrite>) -> Seq<WriteView> {
    s.map_values(|w: KvWrite| w@)
}

// ── single values ──────────────────────────────────────────────────

/// `Value::as_i64`.
pub open spec fn as_i64(v: JsonInput) -> Option<i64> {
    match v {
        JsonInput::Number(n) => n.as_i64,
        _ => None,
    }
}

/// `Value::as_f64().unwrap_or(0.0)`, as bits.
pub open spec fn f64_bits_of(v: JsonInput) -> u64 {
    match v {
        JsonInput::Number(n) => n.f64_bits,
        _ => 0,
    }
}

/// `Value::as_bool().unwrap_or(false)`.
pub open spec fn as_bool(v: JsonInput) -> bool {
    match v {
        JsonInput::Bool(b) => b,
        _ => false,
    }
}

/// What a scalar JSON value is stored as: an integer as `int64`, another
/// number as `float64`, a boolean as `bool`, a string as its UTF-8 bytes;
/// nothing for `null`, arrays and objects.
pub open spec fn value_req(v: JsonInput) -> RequestView {
    match v {
        JsonInput::Number(n) => match n.as_i64 {
            Some(i) => RequestView::Encode("int64"@, le_bytes(twos64(i as int), 8), 1),
            None => RequestView::Encode("float64"@, le_bytes(n.f64_bits as nat, 8), 1),
        },
        JsonInput::Bool(b) => RequestView::Encode(
            "bool"@,
            seq![if b {
                1u8
            } else {
                0u8
            }],
            1,
        ),
        JsonInput::Str(s) => RequestView::CharBytes(encode_utf8(s@)),
        _ => RequestView::Empty,
    }
}

/// The `int64` layout of array elements.
pub open spec fn i64_raw(arr: Seq<JsonInput>) -> Seq<u8>
    decreases arr.len(),
{
    if arr.len() == 0 {
        Seq::empty()
    } else {
        i64_raw(arr.drop_last()) + le_bytes(twos64(as_i64(arr.last()).unwrap() as int), 8)
    }
}

/// The `float64` layout of array elements.
pub open spec fn f64_raw(arr: Seq<JsonInput>) -> Seq<u8>
    decreases arr.len(),
{
    if arr.len() == 0 {
        Seq::empty()
    } else {
        f64_raw(arr.drop_last()) + le_bytes(f64_bits_of(arr.last()) as nat, 8)
    }
}

/// Every element has an `i64` value.
pub open spec fn all_i64(arr: Seq<JsonInput>) -> bool {
    forall|i: int| 0 <= i < arr.len() ==> #[trigger] as_i64(arr[i]) is Some
}

/// What an array is stored as, going by its first element: numbers as
/// `int64` when every element is an integer and as `float64` otherwise,
/// booleans as `bool`; nothing for any other array.
pub open spec fn array_req(arr: Seq<JsonInput>) -> RequestView {
    if arr.len() == 0 {
        RequestView::Empty
    } else {
        match arr[0] {
            JsonInput::Number(_) => if all_i64(arr) {
                RequestView::Encode("int64"@, i64_raw(arr), arr.len())
            } else {
                RequestView::Encode("float64"@, f64_raw(arr), arr.len())
            },
            JsonInput::Bool(_) => RequestView::Encode(
                "bool"@,
                Seq::new(
                    arr.len(),
                    |i: int|
                        if as_bool(arr[i]) {
                            1u8
                        } else {
                            0u8
                        },
                ),
                arr.len(),
            ),
            _ => RequestView::Empty,
        }
    }
}

fn string_bytes(s: &String) -> (b: Vec<u8>)
    ensures
        b@ == encode_utf8(s@),
{
    let bytes = s.as_str().as_bytes();
    let v = copy_range(bytes, 0, bytes.len());
    proof {
        assert(bytes@.subrange(0, bytes@.len() as int) =~= bytes@);
    }
    v
}

/// What a scalar JSON value is stored as (see `value_req`).
pub fn value_to_tlv(v: &JsonInput) -> (r: TlvRequest)
    ensures
        r@ == value_req(*v),
{
    match v {
        JsonInput::Number(n) => match n.as_i64 {
            Some(i) => TlvRequest::Encode {
                kind: string_of(&chars_of("int64")),
                raw: i64_le_bytes(i),
                arr_len: 1,
            },
            None => TlvRequest::Encode {
                kind: string_of(&chars_of("float64")),
                raw: le_bytes_of(n.f64_bits, 8),
                arr_len: 1,
            },
        },
        JsonInput::Bool(b) => {
            let mut raw: Vec<u8> = Vec::new();
            raw.push(if *b {
                1u8
            } else {
                0u8
            });
            proof {
                assert(raw@ =~= seq![if *b {
                    1u8
                } else {
                    0u8
                }]);
            }
            TlvRequest::Encode { kind: string_of(&chars_of("bool")), raw, arr_len: 1 }
        },
        JsonInput::Str(s) => TlvRequest::CharBytes(string_bytes(s)),
        _ => TlvRequest::Empty,
    }
}

} // verus!

verus! {

fn as_i64_exec(v: &JsonInput) -> (r: Option<i64>)
    ensures
        r == as_i64(*v),
{
    match v {
        JsonInput::Number(n) => n.as_i64,
        _ => None,
    }
}

fn f64_bits_exec(v: &JsonInput) -> (r: u64)
    ensures
        r == f64_bits_of(*v),
{
    match v {
        JsonInput::Number(n) => n.f64_bits,
        _ => 0,
    }
}

fn as_bool_exec(v: &JsonInput) -> (r: bool)
    ensures
        r == as_bool(*v),
{
    match v {
        JsonInput::Bool(b) => *b,
        _ => false,
    }
}

/// What an array is stored as (see `array_req`).
pub fn array_to_tlv(arr: &[JsonInput]) -> (r: TlvRequest)
    ensures
        r@ == array_req(arr@),
{
    if arr.len() == 0 {
        return TlvRequest::Empty;
    }
    match &arr[0] {
        JsonInput::Number(_) => {
            let mut all = true;
            let mut i: usize = 0;
            while i < arr.len()
                invariant
                    0 <= i <= arr@.len(),
                    all == (forall|j: int| 0 <= j < i ==> #[trigger] as_i64(arr@[j]) is Some),
                decreases arr@.len() - i,
            {
                if as_i64_exec(&arr[i]).is_none() {
                    all = false;
                }
                i = i + 1;
            }
            let mut raw: Vec<u8> = Vec::new();
            let mut i: usize = 0;
            proof {
                assert(arr@.subrange(0, 0) =~= Seq::<JsonInput>::empty());
            }
            while i < arr.len()
                invariant
                    0 <= i <= arr@.len(),
                    all == all_i64(arr@),
                    all ==> raw@ == i64_raw(arr@.subrange(0, i as int)),
                    !all ==> raw@ == f64_raw(arr@.subrange(0, i as int)),
                decreases arr@.len() - i,
            {
                proof {
                    assert(arr@.subrange(0, i + 1).drop_last() =~= arr@.subrange(0, i as int));
                }
                let mut b = if all {
                    match as_i64_exec(&arr[i]) {
                        Some(x) => i64_le_bytes(x),
                        None => Vec::new(),
                    }
                } else {
                    le_bytes_of(f64_bits_exec(&arr[i]), 8)
                };
                raw.append(&mut b);
                i = i + 1;
            }
            proof {
                assert(arr@.subrange(0, arr@.len() as int) =~= arr@);
            }
            if all {
                TlvRequest::Encode { kind: string_of(&chars_of("int64")), raw, arr_len: arr.len() }
            } else {
                TlvRequest::Encode { kind: string_of(&chars_of("float64")), raw, arr_len: arr.len() }
            }
        },
        JsonInput::Bool(_) => {
            let mut raw: Vec<u8> = Vec::new();
            let mut i: usize = 0;
            while i < arr.len()
                invariant
                    0 <= i <= arr@.len(),
                    raw@.len() == i,
                    forall|j: int|
                        0 <= j < i ==> #[trigger] raw@[j] == (if as_bool(arr@[j]) {
                            1u8
                        } else {
                            0u8
                        }),
                decreases arr@.len() - i,
            {
                raw.push(if as_bool_exec(&arr[i]) {
                    1u8
                } else {
                    0u8
                });
                i = i + 1;
            }
            proof {
                assert(raw@ =~= Seq::new(
                    arr@.len(),
                    |i: int|
                        if as_bool(arr@[i]) {
                            1u8
                        } else {
                            0u8
                        },
                ));
            }
            TlvRequest::Encode { kind: string_of(&chars_of("bool")), raw, arr_len: arr.len() }
        },
        _ => TlvRequest::Empty,
    }
}

/// The dimensions that an encoding of `arr_len` elements carries: a single
/// dimension `arr_len` (as the C ABI's `i32`, truncated as `as` truncates)
/// for several elements, none for one.
pub fn tlv_dims(arr_len: usize) -> (d: Vec<i32>)
    ensures
        arr_len > 1 ==> d@ == seq![arr_len as i32],
        arr_len <= 1 ==> d@.len() == 0,
{
    let mut d: Vec<i32> = Vec::new();
    if arr_len > 1 {
        d.push(#[verifier::truncate] (arr_len as i32));
    }
    proof {
        if arr_len > 1 {
            assert(d@ =~= seq![arr_len as i32]);
        }
    }
    d
}

// ── objects ────────────────────────────────────────────────────────

/// The request stored at the key of a member whose value is `val`: an
/// array's (`array_req`) or a scalar's (`value_req`).
pub open spec fn member_req(val: JsonInput) -> RequestView {
    match val {
        JsonInput::Array(a) => array_req(a@),
        _ => value_req(val),
    }
}

/// The key of member `k` under `root`: `root/k`.
pub open spec fn child_path(root: Seq<char>, k: Seq<char>) -> Seq<char> {
    root + seq!['/'] + k
}

/// The writes that storing JSON value `v` under `root` makes: for each
/// member of an object, in order, a nested object makes its directory and
/// is written into it, an array and a scalar are stored at the member's
/// key. Anything but an object writes nothing.
pub open spec fn write_plan(root: Seq<char>, v: JsonInput) -> Seq<WriteView>
    decreases v, 1nat,
{
    match v {
        JsonInput::Object(m) => members_plan(root, m@),
        _ => Seq::empty(),
    }
}

/// The writes of object members `ms` under `root`.
pub open spec fn members_plan(root: Seq<char>, ms: Seq<(String, JsonInput)>) -> Seq<WriteView>
    decreases ms, 0nat,
{
    if ms.len() == 0 {
        Seq::empty()
    } else {
        let k = ms.last().0;
        let val = ms.last().1;
        let child = child_path(root, k@);
        members_plan(root, ms.drop_last()) + match val {
            JsonInput::Object(_) => seq![WriteView::MkIndex(child + seq!['/'])] + write_plan(
                child,
                val,
            ),
            _ => seq![WriteView::SetTlv(child, member_req(val))],
        }
    }
}

fn write_into(root: &Vec<char>, v: &JsonInput, out: &mut Vec<KvWrite>)
    ensures
        writes_view(final(out)@) == writes_view(old(out)@) + write_plan(root@, *v),
    decreases v,
{
    match v {
        JsonInput::Object(m) => {
            let ghost start = writes_view(out@);
            let mut i: usize = 0;
            proof {
                assert(m@.subrange(0, 0) =~= Seq::<(String, JsonInput)>::empty());
                assert(start + Seq::<WriteView>::empty() =~= start);
            }
            while i < m.len()
                invariant
                    0 <= i <= m@.len(),
                    *v == JsonInput::Object(*m),
                    writes_view(out@) == start + members_plan(root@, m@.subrange(0, i as int)),
                decreases m@.len() - i,
            {
                let ghost pre = writes_view(out@);
                proof {
                    assert(m@.subrange(0, i + 1).drop_last() =~= m@.subrange(0, i as int));
                }
                let k = &m[i].0;
                let val = &m[i].1;
                let mut child = root.clone();
                child.push('/');
                push_str(&mut child, k.as_str());
                proof {
                    assert(child@ =~= child_path(root@, k@));
                }
                match val {
                    JsonInput::Object(_) => {
                        let mut p = child.clone();
                        p.push('/');
                        proof {
                            assert(p@ =~= child@ + seq!['/']);
                        }
                        out.push(KvWrite::MkIndex(string_of(&p)));
                        proof {
                            assert((*v)->Object_0 == *m);
                            assert(decreases_to!(*v => (*v)->Object_0));
                            assert(decreases_to!(*m => m@));
                            assert(decreases_to!(m@ => m@[i as int]));
                            assert(decreases_to!(m@[i as int] => m@[i as int].1));
                            assert(decreases_to!(*v => m@[i as int].1));
                            assert(writes_view(out@) =~= pre + seq![
                                WriteView::MkIndex(child@ + seq!['/']),
                            ]);
                        }
                        write_into(&child, val, out);
                    },
                    JsonInput::Array(a) => {
                        out.push(KvWrite::SetTlv(string_of(&child), array_to_tlv(a.as_slice())));
                        proof {
                            assert(writes_view(out@) =~= pre + seq![
                                WriteView::SetTlv(child@, array_req(a@)),
                            ]);
                        }
                    },
                    _ => {
                        out.push(KvWrite::SetTlv(string_of(&child), value_to_tlv(val)));
                        proof {
                            assert(writes_view(out@) =~= pre + seq![
                                WriteView::SetTlv(child@, value_req(*val)),
                            ]);
                        }
                    },
                }
                i = i + 1;
            }
            proof {
                assert(m@.subrange(0, m@.len() as int) =~= m@);
            }
        },
        _ => {
            proof {
                assert(writes_view(out@) + Seq::<WriteView>::empty() =~= writes_view(out@));
            }
        },
    }
}

/// The writes that store JSON value `v` under `root` (what `json.from`
/// does with a parsed object).
pub fn write_map(root: &str, v: &JsonInput) -> (w: Vec<KvWrite>)
    ensures
        writes_view(w@) == write_plan(root@, *v),
{
    let r = chars_of(root);
    let mut out: Vec<KvWrite> = Vec::new();
    proof {
        assert(writes_view(out@) =~= Seq::<WriteView>::empty());
    }
    write_into(&r, v, &mut out);
    proof {
        assert(Seq::<WriteView>::empty() + write_plan(root@, *v) =~= write_plan(root@, *v));
    }
    out
}

} // verus!

verus! {

// ── JSON text ──────────────────────────────────────────────────────

#[verifier::external_type_specification]
#[verifier::external_body]
pub struct ExJsonValue(Value);

/// The JSON value that `serde_json::from_str::<Value>` parses out of
/// `text`, read as a `JsonInput`; `None` where it refuses the text.
pub uninterp spec fn parsed_json(text: Seq<char>) -> Option<JsonInput>;

/// Reads a parsed `serde_json::Value` as a `JsonInput`, variant by
/// variant: a number keeps `Number::as_i64` and the bits of
/// `Number::as_f64` (0 where it has none), an object its members in the
/// order that `Map::iter` gives.
#[verifier::external_body]
fn json_input_of(v: &Value) -> JsonInput {
    match v {
        Value::Null => JsonInput::Null,
        Value::Bool(b) => JsonInput::Bool(*b),
        Value::Number(n) => JsonInput::Number(
            JsonNumber { as_i64: n.as_i64(), f64_bits: n.as_f64().map(|x| x.to_bits()).unwrap_or(0) },
        ),
        Value::String(t) => JsonInput::Str(t.clone()),
        Value::Array(a) => JsonInput::Array(a.iter().map(json_input_of).collect()),
        Value::Object(m) => JsonInput::Object(m.iter().map(|(k, x)| (k.clone(), json_input_of(x))).collect()),
    }
}

/// `serde_json::from_str::<Value>`: the contract names its result
/// (`parsed_json`), which depends on the text alone; `None` where it
/// returns an error. What it accepts and how it reads numbers is left to
/// serde_json.
#[verifier::external_body]
fn parse_json(text: &str) -> (r: Option<JsonInput>)
    ensures
        r == parsed_json(text@),
{
    match serde_json::from_str::<Value>(text) {
        Ok(v) => Some(json_input_of(&v)),
        Err(_) => None,
    }
}

/// The writes that `json.from` makes under `root` for JSON text `text`:
/// those of the parsed value (nothing unless it is an object), and none
/// for text that does not parse.
pub fn json_from_text(root: &str, text: &str) -> (w: Vec<KvWrite>)
    ensures
        writes_view(w@) == (match parsed_json(text@) {
            Some(v) => write_plan(root@, v),
            None => Seq::<WriteView>::empty(),
        }),
{
    match parse_json(text) {
        Some(v) => write_map(root, &v),
        None => {
            let w: Vec<KvWrite> = Vec::new();
            proof {
                assert(writes_view(w@) =~= Seq::<WriteView>::empty());
            }
            w
        },
    }
}

} // verus!

verus! {

// ── reading back what was written ───────────────────────────────────

/// The JSON value that a scalar reads back as once stored: an integer as
/// itself, another number as its `f64` bits, a boolean and a string as
/// themselves.
pub open spec fn read_back(v: JsonInput) -> JsonView {
    match v {
        JsonInput::Number(n) => match n.as_i64 {
            Some(i) => JsonView::Int(i as int),
            None => JsonView::Float64(n.f64_bits),
        },
        JsonInput::Bool(b) => JsonView::Bool(b),
        JsonInput::Str(s) => JsonView::Str(s@),
        _ => JsonView::Bool(false),
    }
}

pub(crate) proof fn lemma_kind_literals()
    ensures
        "bool"@ != "int64"@,
        "bool"@ != "float64"@,
        "bool"@ != "char/utf8"@,
        is_int_kind("int64"@),
        !is_int_kind("float64"@),
        !is_int_kind("bool"@),
        !is_int_kind("char/utf8"@),
        is_float_kind("float64"@),
        !is_float_kind("int64"@),
        !is_float_kind("char/utf8"@),
        "char/utf8"@ != "char/utf32"@,
        elem_size_spec("int64"@) == 8,
        elem_size_spec("float64"@) == 8,
        !is_float_kind("bool"@),
        "bool"@ != "char/utf32"@,
        !is_int_kind("char/utf32"@),
        !is_float_kind("char/utf32"@),
{
    reveal_strlit("bool");
    reveal_strlit("int8");
    reveal_strlit("int16");
    reveal_strlit("int32");
    reveal_strlit("int64");
    reveal_strlit("uint8");
    reveal_strlit("uint16");
    reveal_strlit("uint32");
    reveal_strlit("uint64");
    reveal_strlit("float32");
    reveal_strlit("float64");
    reveal_strlit("char/utf8");
    reveal_strlit("char/utf32");
    assert("bool"@[0] == 'b');
    assert("int8"@[0] == 'i' && "int16"@[0] == 'i' && "int32"@[0] == 'i' && "int64"@[0] == 'i');
    assert("uint8"@[0] == 'u' && "uint16"@[0] == 'u' && "uint32"@[0] == 'u' && "uint64"@[0]
        == 'u');
    assert("float32"@[0] == 'f' && "float64"@[0] == 'f');
    assert("char/utf8"@[0] == 'c');
    assert("char/utf8"@.len() == 9 && "char/utf32"@.len() == 10);
    assert("float32"@[5] == '3' && "float64"@[5] == '6');
    assert("int8"@.len() == 4 && "int64"@.len() == 5);
    assert("int16"@[3] == '1' && "int32"@[3] == '3' && "int64"@[3] == '6');
}

/// The element kinds have the widths that their names say.
pub proof fn lemma_elem_sizes(k: Seq<char>)
    requires
        is_int_kind(k) || is_float_kind(k),
    ensures
        elem_size_spec(k) > 0,
{
}

/// A stored scalar reads back as the JSON value that was written: a
/// number, a boolean or a string (stored as `char/utf8`) round-trips.
pub proof fn lemma_value_roundtrip(v: JsonInput)
    requires
        v is Number || v is Bool || v is Str,
    ensures
        match value_req(v) {
            RequestView::Encode(k, raw, n) => tlv_json(k, raw, n) == read_back(v),
            RequestView::CharBytes(b) => tlv_json("char/utf8"@, b, 1) == read_back(v),
            RequestView::Empty => false,
        },
{
    lemma_kind_literals();
    lemma_pow256_values();
    match v {
        JsonInput::Number(n) => match n.as_i64 {
            Some(i) => {
                lemma_i64_roundtrip(i);
            },
            None => {
                lemma_le_bytes(n.f64_bits as nat, 8);
                vstd::arithmetic::div_mod::lemma_small_mod(n.f64_bits as nat, pow256(8));
            },
        },
        JsonInput::Bool(b) => {},
        JsonInput::Str(s) => {
            vstd::utf8::encode_utf8_valid_utf8(s@);
            vstd::utf8::encode_utf8_decode_utf8(s@);
        },
        _ => {},
    }
}

pub(crate) proof fn lemma_i64_raw_shape(arr: Seq<JsonInput>)
    requires
        all_i64(arr),
    ensures
        i64_raw(arr).len() == 8 * arr.len(),
        forall|i: int|
            0 <= i < arr.len() ==> #[trigger] i64_raw(arr).subrange(8 * i, 8 * i + 8) == le_bytes(
                twos64(as_i64(arr[i]).unwrap() as int),
                8,
            ),
    decreases arr.len(),
{
    if arr.len() > 0 {
        let p = arr.drop_last();
        assert(all_i64(p)) by {
            assert forall|i: int| 0 <= i < p.len() implies #[trigger] as_i64(p[i]) is Some by {
                assert(p[i] == arr[i]);
            }
        }
        lemma_i64_raw_shape(p);
        lemma_le_bytes(twos64(as_i64(arr.last()).unwrap() as int), 8);
        let r = i64_raw(arr);
        assert forall|i: int| 0 <= i < arr.len() implies #[trigger] r.subrange(8 * i, 8 * i + 8)
            == le_bytes(twos64(as_i64(arr[i]).unwrap() as int), 8) by {
            if i < arr.len() - 1 {
                assert(r.subrange(8 * i, 8 * i + 8) =~= i64_raw(p).subrange(8 * i, 8 * i + 8));
                assert(p[i] == arr[i]);
            } else {
                assert(r.subrange(8 * i, 8 * i + 8) =~= le_bytes(
                    twos64(as_i64(arr.last()).unwrap() as int),
                    8,
                ));
            }
        }
    }
}

#[verifier::rlimit(40)]
pub(crate) proof fn lemma_f64_raw_shape(arr: Seq<JsonInput>)
    ensures
        f64_raw(arr).len() == 8 * arr.len(),
        forall|i: int|
            0 <= i < arr.len() ==> #[trigger] f64_raw(arr).subrange(8 * i, 8 * i + 8) == le_bytes(
                f64_bits_of(arr[i]) as nat,
                8,
            ),
    decreases arr.len(),
{
    if arr.len() > 0 {
        let p = arr.drop_last();
        lemma_f64_raw_shape(p);
        lemma_le_bytes(f64_bits_of(arr.last()) as nat, 8);
        let r = f64_raw(arr);
        assert forall|i: int| 0 <= i < arr.len() implies #[trigger] r.subrange(8 * i, 8 * i + 8)
            == le_bytes(f64_bits_of(arr[i]) as nat, 8) by {
            if i < arr.len() - 1 {
                assert(r.subrange(8 * i, 8 * i + 8) =~= f64_raw(p).subrange(8 * i, 8 * i + 8));
                assert(p[i] == arr[i]);
            } else {
                assert(r.subrange(8 * i, 8 * i + 8) =~= le_bytes(f64_bits_of(arr.last()) as nat, 8));
            }
        }
    }
}

/// The JSON value that element `i` of a stored array reads back as.
pub open spec fn element_back(arr: Seq<JsonInput>, i: int) -> JsonView {
    match arr[0] {
        JsonInput::Number(_) => if all_i64(arr) {
            JsonView::Int(as_i64(arr[i]).unwrap() as int)
        } else {
            JsonView::Float64(f64_bits_of(arr[i]))
        },
        _ => JsonView::Bool(as_bool(arr[i])),
    }
}

/// The JSON value that a stored array of numbers or booleans reads back
/// as: an array of its elements read back, except that an array of one
/// element reads back as that element, since one element is stored without
/// a dimension.
pub open spec fn array_back(arr: Seq<JsonInput>) -> JsonView {
    if arr.len() == 1 {
        element_back(arr, 0)
    } else {
        JsonView::Array(Seq::new(arr.len(), |i: int| element_back(arr, i)))
    }
}

/// A stored array of numbers or booleans reads back as `array_back`:
/// integers as themselves when every element is one, otherwise each number
/// as its `f64` bits; booleans as themselves.
pub proof fn lemma_array_roundtrip(arr: Seq<JsonInput>)
    requires
        arr.len() >= 1,
        arr[0] is Number || arr[0] is Bool,
    ensures
        match array_req(arr) {
            RequestView::Encode(k, raw, n) => tlv_json(k, raw, n) == array_back(arr),
            _ => false,
        },
{
    if arr.len() == 1 {
        lemma_single_roundtrip(arr);
        return;
    }
    lemma_kind_literals();
    lemma_pow256_values();
    let expect = Seq::new(arr.len(), |i: int| element_back(arr, i));
    match arr[0] {
        JsonInput::Number(_) => {
            if all_i64(arr) {
                lemma_i64_raw_shape(arr);
                let raw = i64_raw(arr);
                let got = Seq::new(
                    arr.len(),
                    |i: int| JsonView::Int(read_int_spec(raw.subrange(i * 8, i * 8 + 8))),
                );
                assert forall|i: int| 0 <= i < arr.len() implies got[i] == expect[i] by {
                    assert(i * 8 == 8 * i);
                    lemma_i64_roundtrip(as_i64(arr[i]).unwrap());
                }
                assert(got =~= expect);
            } else {
                lemma_f64_raw_shape(arr);
                let raw = f64_raw(arr);
                let got = Seq::new(arr.len(), |i: int| float_view(raw.subrange(i * 8, i * 8 + 8)));
                assert forall|i: int| 0 <= i < arr.len() implies got[i] == expect[i] by {
                    assert(i * 8 == 8 * i);
                    let b = f64_bits_of(arr[i]) as nat;
                    lemma_le_bytes(b, 8);
                    vstd::arithmetic::div_mod::lemma_small_mod(b, pow256(8));
                }
                assert(got =~= expect);
            }
        },
        _ => {
            let raw = Seq::new(
                arr.len(),
                |i: int|
                    if as_bool(arr[i]) {
                        1u8
                    } else {
                        0u8
                    },
            );
            let got = Seq::new(arr.len(), |i: int| JsonView::Bool(raw[i] != 0));
            assert(got =~= expect);
        },
    }
}


/// The one-element case of `lemma_array_roundtrip`.
proof fn lemma_single_roundtrip(arr: Seq<JsonInput>)
    requires
        arr.len() == 1,
        arr[0] is Number || arr[0] is Bool,
    ensures
        match array_req(arr) {
            RequestView::Encode(k, raw, n) => tlv_json(k, raw, n) == element_back(arr, 0),
            _ => false,
        },
{
    lemma_kind_literals();
    lemma_pow256_values();
    assert(arr.drop_last() =~= Seq::<JsonInput>::empty());
    match arr[0] {
        JsonInput::Number(_) => {
            if all_i64(arr) {
                let x = as_i64(arr[0]).unwrap();
                assert(i64_raw(arr.drop_last()) =~= Seq::<u8>::empty());
                assert(i64_raw(arr) =~= le_bytes(twos64(x as int), 8));
                lemma_i64_roundtrip(x);
            } else {
                let b = f64_bits_of(arr[0]) as nat;
                assert(f64_raw(arr.drop_last()) =~= Seq::<u8>::empty());
                assert(f64_raw(arr) =~= le_bytes(b, 8));
                lemma_le_bytes(b, 8);
                vstd::arithmetic::div_mod::lemma_small_mod(b, pow256(8));
            }
        },
        _ => {},
    }
}

} // verus!
