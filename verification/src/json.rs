//! KV subtree → JSON: stored values become JSON values, directories become
//! objects, and scattered `name[i]` keys become arrays.
use vstd::prelude::*;
use vstd::relations::{sorted_by, total_ordering};

use crate::text::{
    eq_lit, chars_of, decimal, decimal_chars, last_index_of, parse_bounded, parse_decimal, rfind,
    string_from, string_of,
};
use crate::tlv::{
    copy_range, elem_size, elem_size_spec, le_value, utf8_text, parse_tlv, read_int,
    read_int_spec, tlv_parts, utf32_decode, utf32_to_string, utf8_lossy, TlvHead, head_fits,
    lemma_le_value_bound, lemma_pow256_values, pow256,
};

verus! {

// ── the JSON model ──────────────────────────────────────────────────

/// A JSON value as the library reads it out of kvspace. Floats are kept as
/// their bit patterns; an object lists its members in insertion order, a
/// later member replacing an earlier one with the same key.
pub enum JsonValue {
    Bool(bool),
    Int(i64),
    /// The bits of an `f32`.
    Float32(u32),
    /// The bits of an `f64`.
    Float64(u64),
    Str(String),
    Array(Vec<JsonValue>),
    Object(Vec<(String, JsonValue)>),
}

/// The mathematical value of a `JsonValue`: an object is a map.
pub enum JsonView {
    Bool(bool),
    Int(int),
    Float32(u32),
    Float64(u64),
    Str(Seq<char>),
    Array(Seq<JsonView>),
    Object(Map<Seq<char>, JsonView>),
}

/// The map that inserting `members` in order builds.
pub open spec fn assoc_map(members: Seq<(Seq<char>, JsonView)>) -> Map<Seq<char>, JsonView>
    decreases members.len(),
{
    if members.len() == 0 {
        Map::empty()
    } else {
        assoc_map(members.drop_last()).insert(members.last().0, members.last().1)
    }
}

/// The view of a JSON value.
pub open spec fn json_view(v: JsonValue) -> JsonView
    decreases v, 1nat,
{
    match v {
        JsonValue::Bool(b) => JsonView::Bool(b),
        JsonValue::Int(i) => JsonView::Int(i as int),
        JsonValue::Float32(b) => JsonView::Float32(b),
        JsonValue::Float64(b) => JsonView::Float64(b),
        JsonValue::Str(s) => JsonView::Str(s@),
        JsonValue::Array(a) => JsonView::Array(items_view(a@)),
        JsonValue::Object(m) => JsonView::Object(assoc_map(members_view(m@))),
    }
}

/// The views of array items.
pub open spec fn items_view(s: Seq<JsonValue>) -> Seq<JsonView>
    decreases s, 0nat,
{
    if s.len() == 0 {
        Seq::empty()
    } else {
        items_view(s.drop_last()).push(json_view(s.last()))
    }
}

/// The views of object members.
pub open spec fn members_view(s: Seq<(String, JsonValue)>) -> Seq<(Seq<char>, JsonView)>
    decreases s, 0nat,
{
    if s.len() == 0 {
        Seq::empty()
    } else {
        members_view(s.drop_last()).push((s.last().0@, json_view(s.last().1)))
    }
}

impl View for JsonValue {
    type V = JsonView;

    open spec fn view(&self) -> JsonView {
        json_view(*self)
    }
}

pub proof fn lemma_items_view(s: Seq<JsonValue>)
    ensures
        items_view(s).len() == s.len(),
        forall|i: int| 0 <= i < s.len() ==> #[trigger] items_view(s)[i] == s[i]@,
    decreases s.len(),
{
    if s.len() > 0 {
        lemma_items_view(s.drop_last());
        assert forall|i: int| 0 <= i < s.len() implies #[trigger] items_view(s)[i] == s[i]@ by {
            if i < s.len() - 1 {
                assert(s.drop_last()[i] == s[i]);
            }
        }
    }
}

/// The view of an array holding `items`, element by element.
proof fn lemma_array_items(items: Seq<JsonValue>, expect: Seq<JsonView>)
    requires
        items.len() == expect.len(),
        forall|i: int| 0 <= i < items.len() ==> #[trigger] items[i]@ == expect[i],
    ensures
        items_view(items) == expect,
{
    lemma_items_view(items);
    assert(items_view(items) =~= expect);
}

proof fn lemma_members_push(m: Seq<(String, JsonValue)>, k: String, v: JsonValue)
    ensures
        assoc_map(members_view(m.push((k, v)))) == assoc_map(members_view(m)).insert(k@, v@),
{
    assert(m.push((k, v)).drop_last() =~= m);
    let mv = members_view(m.push((k, v)));
    assert(mv.drop_last() =~= members_view(m));
}

// ── stored values → JSON ───────────────────────────────────────────

/// One of the integer element kinds.
pub open spec fn is_int_kind(k: Seq<char>) -> bool {
    ||| k == "int8"@
    ||| k == "int16"@
    ||| k == "int32"@
    ||| k == "int64"@
    ||| k == "uint8"@
    ||| k == "uint16"@
    ||| k == "uint32"@
    ||| k == "uint64"@
}

/// One of the float element kinds.
pub open spec fn is_float_kind(k: Seq<char>) -> bool {
    k == "float32"@ || k == "float64"@
}

/// The float that some bytes hold: an `f32` in four bytes, an `f64` in
/// eight, and 0.0 otherwise.
pub open spec fn float_view(raw: Seq<u8>) -> JsonView {
    if raw.len() == 4 {
        JsonView::Float32(le_value(raw) as u32)
    } else if raw.len() == 8 {
        JsonView::Float64(le_value(raw) as u64)
    } else {
        JsonView::Float64(0)
    }
}

/// The JSON value of a stored value of kind `kind`, body `raw` and `n`
/// elements: several elements make an array, one makes a scalar;
/// integers are read as signed, text kinds and unknown kinds as strings.
pub open spec fn tlv_json(kind: Seq<char>, raw: Seq<u8>, n: nat) -> JsonView {
    let es = elem_size_spec(kind) as int;
    if kind == "bool"@ {
        if n > 1 {
            JsonView::Array(Seq::new(n, |i: int| JsonView::Bool(raw[i] != 0)))
        } else {
            JsonView::Bool(raw.len() > 0 && raw[0] != 0)
        }
    } else if is_int_kind(kind) {
        if n > 1 {
            JsonView::Array(
                Seq::new(n, |i: int| JsonView::Int(read_int_spec(raw.subrange(i * es, i * es + es)))),
            )
        } else {
            JsonView::Int(read_int_spec(raw))
        }
    } else if is_float_kind(kind) {
        if n > 1 {
            JsonView::Array(Seq::new(n, |i: int| float_view(raw.subrange(i * es, i * es + es))))
        } else {
            float_view(raw)
        }
    } else if kind == "char/utf32"@ {
        JsonView::Str(utf32_decode(raw))
    } else {
        JsonView::Str(utf8_text(raw))
    }
}

/// The body holds every element that the element count calls for.
pub open spec fn tlv_json_ok(kind: Seq<char>, raw: Seq<u8>, n: nat) -> bool {
    n > 1 ==> (kind == "bool"@ ==> n <= raw.len()) && (is_int_kind(kind) || is_float_kind(kind)
        ==> n * elem_size_spec(kind) <= raw.len())
}

fn float_from_bits(raw: &[u8]) -> (v: JsonValue)
    ensures
        v@ == float_view(raw@),
{
    proof {
        lemma_le_value_bound(raw@);
        lemma_pow256_values();
    }
    if raw.len() == 4 {
        let u = raw[0] as u32 + 256 * raw[1] as u32 + 65536 * raw[2] as u32 + 16777216
            * raw[3] as u32;
        proof {
            reveal_with_fuel(le_value, 5);
            assert(raw@.drop_first() =~= seq![raw@[1], raw@[2], raw@[3]]);
            assert(raw@.drop_first().drop_first() =~= seq![raw@[2], raw@[3]]);
            assert(raw@.drop_first().drop_first().drop_first() =~= seq![raw@[3]]);
            assert(raw@.drop_first().drop_first().drop_first().drop_first() =~= Seq::<
                u8,
            >::empty());
        }
        JsonValue::Float32(u)
    } else if raw.len() == 8 {
        let mut acc: u64 = 0;
        let mut i: usize = 8;
        assert(raw@.subrange(8, 8) =~= Seq::<u8>::empty());
        while i > 0
            invariant
                0 <= i <= 8,
                raw@.len() == 8,
                pow256(8) == 18446744073709551616,
                acc == le_value(raw@.subrange(i as int, 8)),
            decreases i,
        {
            let ghost tail = raw@.subrange(i as int, 8);
            i = i - 1;
            proof {
                assert(raw@.subrange(i as int, 8).drop_first() =~= tail);
                lemma_le_value_bound(tail);
                crate::tlv::lemma_pow256_values();
                assert(tail.len() <= 7);
                lemma_pow_le7(tail.len());
            }
            acc = acc * 256 + raw[i] as u64;
        }
        assert(raw@.subrange(0, 8) =~= raw@);
        JsonValue::Float64(acc)
    } else {
        JsonValue::Float64(0)
    }
}

proof fn lemma_pow_le7(n: nat)
    requires
        n <= 7,
    ensures
        pow256(n) <= 72057594037927936,
{
    reveal_with_fuel(pow256, 8);
}

/// Copies `raw[i*es .. i*es+es]`.
fn element_bytes(raw: &[u8], i: usize, es: usize, n: usize) -> (v: Vec<u8>)
    requires
        i < n,
        n * es <= raw@.len(),
    ensures
        v@ == raw@.subrange(i * es, i * es + es),
{
    assert(i * es + es <= n * es) by (nonlinear_arith)
        requires
            i < n,
    ;
    let len = raw.len();
    assert(i * es + es <= len);
    assert(0 <= i * es) by (nonlinear_arith);
    let lo: usize = i * es;
    copy_range(raw, lo, lo + es)
}

/// The JSON value of a stored value (see `tlv_json`).
pub fn tlv_to_json(kind: &str, raw: &[u8], arr_len: usize) -> (v: JsonValue)
    requires
        tlv_json_ok(kind@, raw@, arr_len as nat),
    ensures
        v@ == tlv_json(kind@, raw@, arr_len as nat),
{
    let k = chars_of(kind);
    let es = elem_size(kind);
    let n = arr_len;
    if eq_lit(&k, "bool") {
        if n > 1 {
            let mut items: Vec<JsonValue> = Vec::new();
            let mut i: usize = 0;
            while i < n
                invariant
                    0 <= i <= n,
                    n <= raw@.len(),
                    items@.len() == i,
                    forall|j: int|
                        0 <= j < i ==> #[trigger] items@[j]@ == JsonView::Bool(raw@[j] != 0),
                decreases n - i,
            {
                items.push(JsonValue::Bool(raw[i] != 0));
                i = i + 1;
            }
            proof {
                lemma_array_items(items@, Seq::new(n as nat, |i: int| JsonView::Bool(raw@[i] != 0)));
            }
            JsonValue::Array(items)
        } else {
            JsonValue::Bool(raw.len() > 0 && raw[0] != 0)
        }
    } else if is_int_kind_exec(&k) {
        if n > 1 {
            let mut items: Vec<JsonValue> = Vec::new();
            let mut i: usize = 0;
            while i < n
                invariant
                    0 <= i <= n,
                    es == elem_size_spec(kind@),
                    n * es <= raw@.len(),
                    items@.len() == i,
                    forall|j: int|
                        0 <= j < i ==> #[trigger] items@[j]@ == JsonView::Int(
                            read_int_spec(raw@.subrange(j * es, j * es + es)),
                        ),
                decreases n - i,
            {
                let chunk = element_bytes(raw, i, es, n);
                items.push(JsonValue::Int(read_int(&chunk)));
                i = i + 1;
            }
            proof {
                lemma_array_items(
                    items@,
                    Seq::new(
                        n as nat,
                        |i: int| JsonView::Int(read_int_spec(raw@.subrange(i * es, i * es + es))),
                    ),
                );
            }
            JsonValue::Array(items)
        } else {
            JsonValue::Int(read_int(raw))
        }
    } else if eq_lit(&k, "float32") || eq_lit(&k, "float64") {
        if n > 1 {
            let mut items: Vec<JsonValue> = Vec::new();
            let mut i: usize = 0;
            while i < n
                invariant
                    0 <= i <= n,
                    es == elem_size_spec(kind@),
                    n * es <= raw@.len(),
                    items@.len() == i,
                    forall|j: int|
                        0 <= j < i ==> #[trigger] items@[j]@ == float_view(
                            raw@.subrange(j * es, j * es + es),
                        ),
                decreases n - i,
            {
                let chunk = element_bytes(raw, i, es, n);
                items.push(float_from_bits(&chunk));
                i = i + 1;
            }
            proof {
                lemma_array_items(
                    items@,
                    Seq::new(n as nat, |i: int| float_view(raw@.subrange(i * es, i * es + es))),
                );
            }
            JsonValue::Array(items)
        } else {
            float_from_bits(raw)
        }
    } else if eq_lit(&k, "char/utf32") {
        JsonValue::Str(utf32_to_string(raw))
    } else {
        JsonValue::Str(utf8_lossy(raw))
    }
}

fn is_int_kind_exec(k: &[char]) -> (b: bool)
    ensures
        b == is_int_kind(k@),
{
    eq_lit(k, "int8") || eq_lit(k, "int16") || eq_lit(k, "int32") || eq_lit(k, "int64")
        || eq_lit(k, "uint8") || eq_lit(k, "uint16") || eq_lit(k, "uint32") || eq_lit(
        k,
        "uint64",
    )
}

// ── scattered array names ───────────────────────────────────────────

/// `base[i]` with `base` non-empty and `i` a decimal index fitting in
/// `usize`: the base and the index (the last `[` opens the index).
pub open spec fn split_array_name_spec(name: Seq<char>) -> Option<(Seq<char>, nat)> {
    let lt = last_index_of(name, '[');
    if lt <= 0 || !(name.len() > 0 && name.last() == ']') {
        None
    } else {
        match parse_bounded(name.subrange(lt + 1, name.len() - 1), usize::MAX as nat) {
            Some(i) => Some((name.subrange(0, lt), i)),
            None => None,
        }
    }
}

/// Splits a scattered array key `base[i]` into its base and index.
pub fn split_array_name(name: &str) -> (r: Option<(String, usize)>)
    ensures
        match split_array_name_spec(name@) {
            Some((b, i)) => r matches Some(p) && p.0@ == b && p.1 == i,
            None => r is None,
        },
{
    let s = chars_of(name);
    proof {
        crate::text::lemma_last_index_of(s@, '[');
    }
    let lt = match rfind(&s, '[') {
        Some(lt) => lt,
        None => return None,
    };
    if lt == 0 || !(s.len() > 0 && s[s.len() - 1] == ']') {
        return None;
    }
    match parse_decimal(&s, lt + 1, s.len() - 1, usize::MAX as u64) {
        Some(i) => Some((string_from(&s, 0, lt), i as usize)),
        None => None,
    }
}

} // verus!

verus! {

// ── kvspace subtrees → JSON objects ─────────────────────────────────

/// A stored value as read from kvspace: its bytes and what the head
/// decoder made of them (`None`: the decoder refused them).
pub struct KvLeaf {
    pub data: Vec<u8>,
    pub head: Option<TlvHead>,
}

/// A listed child: a directory with its own listing, or a stored value.
pub enum KvNode {
    Dir(Vec<KvEntry>),
    Leaf(KvLeaf),
}

/// A child as the listing names it (a directory's name ends with `/`).
pub struct KvEntry {
    pub name: String,
    pub node: KvNode,
}

pub open spec fn is_dir_name(n: Seq<char>) -> bool {
    n.len() > 0 && n.last() == '/'
}

/// `n` without its trailing slashes.
pub open spec fn trim_slashes(n: Seq<char>) -> Seq<char>
    decreases n.len(),
{
    if n.len() > 0 && n.last() == '/' {
        trim_slashes(n.drop_last())
    } else {
        n
    }
}

/// The JSON value of a stored value.
pub open spec fn leaf_json(l: KvLeaf) -> JsonView {
    let p = tlv_parts(l.data@, l.head);
    tlv_json(p.0, p.1, p.2)
}

/// A stored value that can be read without fault.
pub open spec fn leaf_ok(l: KvLeaf) -> bool {
    let p = tlv_parts(l.data@, l.head);
    head_fits(l.head) && tlv_json_ok(p.0, p.1, p.2)
}

/// The JSON value of a key that holds nothing.
pub open spec fn missing_json() -> JsonView {
    tlv_json(Seq::empty(), Seq::empty(), 1)
}

/// The key of element `i` of scattered array `b`: `b[i]`.
pub open spec fn element_name(b: Seq<char>, i: nat) -> Seq<char> {
    b + seq!['['] + decimal(i) + seq![']']
}

/// The first stored value listed under `name`.
pub open spec fn lookup_leaf(s: Seq<KvEntry>, name: Seq<char>) -> Option<KvLeaf>
    decreases s.len(),
{
    if s.len() == 0 {
        None
    } else if s[0].name@ == name && s[0].node is Leaf {
        Some(s[0].node->Leaf_0)
    } else {
        lookup_leaf(s.drop_first(), name)
    }
}

/// The JSON value of element `i` of scattered array `b`.
pub open spec fn lookup_json(s: Seq<KvEntry>, b: Seq<char>, i: nat) -> JsonView {
    match lookup_leaf(s, element_name(b, i)) {
        Some(l) => leaf_json(l),
        None => missing_json(),
    }
}

/// The indices, in listing order, of the listed keys `b[i]`.
pub open spec fn idxs_of(s: Seq<KvEntry>, b: Seq<char>) -> Seq<usize>
    decreases s.len(),
{
    if s.len() == 0 {
        Seq::empty()
    } else {
        let r = idxs_of(s.drop_last(), b);
        let n = s.last().name@;
        if is_dir_name(n) {
            r
        } else {
            match split_array_name_spec(n) {
                Some((b2, i)) => if b2 == b {
                    r.push(i as usize)
                } else {
                    r
                },
                None => r,
            }
        }
    }
}

pub open spec fn idx_leq() -> spec_fn(usize, usize) -> bool {
    |a: usize, b: usize| a <= b
}

/// The scattered arrays of a listing: each base maps to the values of its
/// elements, in ascending index order.
pub open spec fn scat_map(s: Seq<KvEntry>) -> Map<Seq<char>, JsonView> {
    Map::new(
        |b: Seq<char>| idxs_of(s, b).len() > 0,
        |b: Seq<char>|
            JsonView::Array(
                idxs_of(s, b).sort_by(idx_leq()).map_values(|i: usize| lookup_json(s, b, i as nat)),
            ),
    )
}

/// The members that directories and plain stored values give, inserted in
/// listing order.
pub open spec fn plain_map(s: Seq<KvEntry>) -> Map<Seq<char>, JsonView>
    decreases s,
{
    if s.len() == 0 {
        Map::empty()
    } else {
        let m = plain_map(s.drop_last());
        let e = s.last();
        let n = e.name@;
        if is_dir_name(n) {
            match e.node {
                KvNode::Dir(ch) => m.insert(
                    trim_slashes(n),
                    JsonView::Object(plain_map(ch@).union_prefer_right(scat_map(ch@))),
                ),
                KvNode::Leaf(_) => m,
            }
        } else if split_array_name_spec(n) is Some {
            m
        } else {
            match e.node {
                KvNode::Leaf(l) => m.insert(n, leaf_json(l)),
                KvNode::Dir(_) => m,
            }
        }
    }
}

/// The JSON object of a listing: its plain members, then its scattered
/// arrays.
pub open spec fn dir_json(s: Seq<KvEntry>) -> Map<Seq<char>, JsonView> {
    plain_map(s).union_prefer_right(scat_map(s))
}

/// The stored value that element `k` of scattered array `b` reads, if the
/// listing holds one, can be read without fault.
pub open spec fn element_ok(s: Seq<KvEntry>, b: Seq<char>, k: nat) -> bool {
    match lookup_leaf(s, element_name(b, k)) {
        Some(l) => leaf_ok(l),
        None => true,
    }
}

/// Listed entry `e` of listing `s` can be read without fault as far as
/// reading the listing reads it, where `dir_ok` says whether the listing of
/// its directory can: a directory through its own listing, a plain stored
/// value itself, and a scattered element `b[k]` through the value that
/// `element_ok` names; nothing else is read.
pub open spec fn entry_ok(s: Seq<KvEntry>, e: KvEntry, dir_ok: bool) -> bool {
    if is_dir_name(e.name@) {
        e.node is Dir ==> dir_ok
    } else {
        match split_array_name_spec(e.name@) {
            Some((b, k)) => element_ok(s, b, k),
            None => match e.node {
                KvNode::Leaf(l) => leaf_ok(l),
                KvNode::Dir(_) => true,
            },
        }
    }
}

/// Reading the subtree reads no stored value that it cannot read without
/// fault.
pub open spec fn snapshot_ok(s: Seq<KvEntry>) -> bool
    decreases s,
{
    forall|i: int|
        #![trigger s[i]]
        0 <= i < s.len() ==> entry_ok(
            s,
            s[i],
            match s[i].node {
                KvNode::Dir(ch) => snapshot_ok(ch@),
                KvNode::Leaf(_) => true,
            },
        )
}

} // verus!

verus! {

/// Sorts indices ascending (`<[usize]>::sort_unstable`): the contract claims
/// the result is a sorted rearrangement of the input.
#[verifier::external_body]
fn sort_indices(v: &mut Vec<usize>)
    ensures
        final(v)@.to_multiset() == old(v)@.to_multiset(),
        sorted_by(final(v)@, idx_leq()),
{
    v.sort_unstable();
}

proof fn lemma_idx_leq_total()
    ensures
        total_ordering(idx_leq()),
{
}

/// Two sorted rearrangements of the same indices are equal.
proof fn lemma_sorted_unique(a: Seq<usize>, b: Seq<usize>)
    requires
        sorted_by(a, idx_leq()),
        sorted_by(b, idx_leq()),
        a.to_multiset() == b.to_multiset(),
    ensures
        a == b,
    decreases a.len(),
{
    broadcast use vstd::seq_lib::group_to_multiset_ensures;

    assert(a.to_multiset().len() == a.len());
    assert(b.to_multiset().len() == b.len());
    assert(a.len() == b.len());
    if a.len() > 0 {
        assert(a.contains(a[0]));
        assert(b.to_multiset().count(a[0]) > 0);
        assert(b.contains(a[0]));
        let j = choose|j: int| 0 <= j < b.len() && b[j] == a[0];
        if j > 0 {
            assert(idx_leq()(b[0], b[j]));
        }
        assert(b.contains(b[0]));
        assert(a.to_multiset().count(b[0]) > 0);
        assert(a.contains(b[0]));
        let k = choose|k: int| 0 <= k < a.len() && a[k] == b[0];
        if k > 0 {
            assert(idx_leq()(a[0], a[k]));
        }
        assert(a[0] == b[0]);
        assert(a.remove(0) =~= a.drop_first());
        assert(b.remove(0) =~= b.drop_first());
        assert(a.drop_first().to_multiset() == b.drop_first().to_multiset());
        assert forall|x: int, y: int| 0 <= x < y < a.len() - 1 implies #[trigger] idx_leq()(
            a.drop_first()[x],
            a.drop_first()[y],
        ) by {
            assert(idx_leq()(a[x + 1], a[y + 1]));
        }
        assert forall|x: int, y: int| 0 <= x < y < b.len() - 1 implies #[trigger] idx_leq()(
            b.drop_first()[x],
            b.drop_first()[y],
        ) by {
            assert(idx_leq()(b[x + 1], b[y + 1]));
        }
        lemma_sorted_unique(a.drop_first(), b.drop_first());
        assert forall|i: int| 0 <= i < a.len() implies a[i] == b[i] by {
            if i > 0 {
                assert(a[i] == a.drop_first()[i - 1]);
                assert(b[i] == b.drop_first()[i - 1]);
            }
        }
        assert(a =~= b);
    } else {
        assert(a =~= b);
    }
}

/// Each index listed for scattered array `b` comes from an entry `b[k]`.
proof fn lemma_idxs_source(s: Seq<KvEntry>, b: Seq<char>)
    ensures
        forall|t: int|
            #![trigger idxs_of(s, b)[t]]
            0 <= t < idxs_of(s, b).len() ==> exists|i: int|
                #![trigger s[i]]
                0 <= i < s.len() && !is_dir_name(s[i].name@) && split_array_name_spec(s[i].name@)
                    == Some((b, idxs_of(s, b)[t] as nat)),
    decreases s.len(),
{
    if s.len() > 0 {
        let p = s.drop_last();
        lemma_idxs_source(p, b);
        let last = s.len() - 1;
        assert(s[last] == s.last());
        assert forall|t: int|
            #![trigger idxs_of(s, b)[t]]
            0 <= t < idxs_of(s, b).len() implies exists|i: int|
                #![trigger s[i]]
                0 <= i < s.len() && !is_dir_name(s[i].name@) && split_array_name_spec(s[i].name@)
                    == Some((b, idxs_of(s, b)[t] as nat)) by {
            if t < idxs_of(p, b).len() {
                assert(idxs_of(s, b)[t] == idxs_of(p, b)[t]);
                let i = choose|i: int|
                    #![trigger p[i]]
                    0 <= i < p.len() && !is_dir_name(p[i].name@) && split_array_name_spec(
                        p[i].name@,
                    ) == Some((b, idxs_of(p, b)[t] as nat));
                assert(s[i] == p[i]);
            } else {
                let n = s[last].name@;
                let sp = split_array_name_spec(n);
                assert(!is_dir_name(n) && sp is Some);
                let (bb, k) = sp.unwrap();
                assert(bb == b);
                assert(k <= usize::MAX) by {
                    lemma_split_bound(n);
                }
                assert(idxs_of(s, b)[t] == k as usize);
            }
        }
    }
}

/// The index of a scattered element fits in `usize`.
proof fn lemma_split_bound(n: Seq<char>)
    ensures
        split_array_name_spec(n) matches Some((_, k)) ==> k <= usize::MAX,
{
}

/// Every index listed for scattered array `b` names a readable element.
proof fn lemma_idxs_ok(s: Seq<KvEntry>, b: Seq<char>)
    requires
        snapshot_ok(s),
    ensures
        forall|t: int|
            #![trigger idxs_of(s, b)[t]]
            0 <= t < idxs_of(s, b).len() ==> element_ok(s, b, idxs_of(s, b)[t] as nat),
{
    lemma_idxs_source(s, b);
    assert forall|t: int|
        #![trigger idxs_of(s, b)[t]]
        0 <= t < idxs_of(s, b).len() implies element_ok(s, b, idxs_of(s, b)[t] as nat) by {
        let i = choose|i: int|
            #![trigger s[i]]
            0 <= i < s.len() && !is_dir_name(s[i].name@) && split_array_name_spec(s[i].name@)
                == Some((b, idxs_of(s, b)[t] as nat));
        assert(entry_ok(
            s,
            s[i],
            match s[i].node {
                KvNode::Dir(ch) => snapshot_ok(ch@),
                KvNode::Leaf(_) => true,
            },
        ));
    }
}

/// The JSON value of stored bytes and their decoded head.
fn decode_leaf(data: &Vec<u8>, head: &Option<TlvHead>) -> (v: JsonValue)
    requires
        head_fits(*head),
        tlv_json_ok(tlv_parts(data@, *head).0, tlv_parts(data@, *head).1, tlv_parts(data@, *head).2),
    ensures
        v@ == tlv_json(tlv_parts(data@, *head).0, tlv_parts(data@, *head).1, tlv_parts(data@, *head).2),
{
    let (kind, raw, n) = parse_tlv(data, head);
    tlv_to_json(kind.as_str(), &raw, n)
}

/// The key `b[i]`.
fn element_key(b: &Vec<char>, i: usize) -> (s: String)
    ensures
        s@ == element_name(b@, i as nat),
{
    let mut v: Vec<char> = b.clone();
    v.push('[');
    let mut d = decimal_chars(i as u64);
    v.append(&mut d);
    v.push(']');
    proof {
        assert(v@ =~= element_name(b@, i as nat));
    }
    string_of(&v)
}

/// Index of the first stored value listed under `name`.
fn find_leaf(s: &Vec<KvEntry>, name: &String) -> (r: Option<usize>)
    ensures
        match lookup_leaf(s@, name@) {
            Some(l) => r matches Some(j) && j < s@.len() && s@[j as int].node == KvNode::Leaf(l),
            None => r is None,
        },
{
    let mut j: usize = 0;
    proof {
        assert(s@.subrange(0, s@.len() as int) =~= s@);
    }
    while j < s.len()
        invariant
            0 <= j <= s@.len(),
            lookup_leaf(s@, name@) == lookup_leaf(s@.subrange(j as int, s@.len() as int), name@),
        decreases s@.len() - j,
    {
        let ghost rest = s@.subrange(j as int, s@.len() as int);
        proof {
            assert(rest.drop_first() =~= s@.subrange(j + 1, s@.len() as int));
        }
        if s[j].name == *name {
            match &s[j].node {
                KvNode::Leaf(_) => {
                    return Some(j);
                },
                KvNode::Dir(_) => {},
            }
        }
        j = j + 1;
    }
    None
}

/// `n` without its trailing slashes.
fn trim_slashes_exec(n: &Vec<char>) -> (s: String)
    ensures
        s@ == trim_slashes(n@),
{
    let mut hi = n.len();
    proof {
        assert(n@.subrange(0, n@.len() as int) =~= n@);
    }
    while hi > 0 && n[hi - 1] == '/'
        invariant
            0 <= hi <= n@.len(),
            trim_slashes(n@) == trim_slashes(n@.subrange(0, hi as int)),
        decreases hi,
    {
        proof {
            assert(n@.subrange(0, hi as int).drop_last() =~= n@.subrange(0, hi - 1));
        }
        hi = hi - 1;
    }
    string_from(n, 0, hi)
}

} // verus!

verus! {

/// The JSON object that a listed subtree reads as: directories become
/// nested objects, plain stored values their JSON values, and keys `b[i]`
/// one array per base `b`, in ascending index order (what `json.to` prints).
pub fn build_value(entries: &Vec<KvEntry>) -> (v: JsonValue)
    requires
        snapshot_ok(entries@),
    ensures
        v@ == JsonView::Object(dir_json(entries@)),
    decreases entries@,
{
    let mut obj: Vec<(String, JsonValue)> = Vec::new();
    let mut bases: Vec<Vec<char>> = Vec::new();
    let mut groups: Vec<Vec<usize>> = Vec::new();
    let mut k: usize = 0;
    proof {
        assert(entries@.subrange(0, 0) =~= Seq::<KvEntry>::empty());
        assert(members_view(obj@) =~= Seq::<(Seq<char>, JsonView)>::empty());
    }
    while k < entries.len()
        invariant
            0 <= k <= entries@.len(),
            snapshot_ok(entries@),
            assoc_map(members_view(obj@)) == plain_map(entries@.subrange(0, k as int)),
            bases@.len() == groups@.len(),
            forall|g: int|
                0 <= g < groups@.len() ==> #[trigger] groups@[g]@ == idxs_of(
                    entries@.subrange(0, k as int),
                    bases@[g]@,
                ) && groups@[g]@.len() > 0,
            forall|g1: int, g2: int|
                0 <= g1 < g2 < bases@.len() ==> #[trigger] bases@[g1]@ != #[trigger] bases@[g2]@,
            forall|b: Seq<char>|
                #[trigger] idxs_of(entries@.subrange(0, k as int), b).len() > 0 ==> exists|g: int|
                    0 <= g < bases@.len() && #[trigger] bases@[g]@ == b,
        decreases entries@.len() - k,
    {
        let ghost p = entries@.subrange(0, k as int);
        let ghost p2 = entries@.subrange(0, k + 1);
        proof {
            assert(p2.drop_last() =~= p);
        }
        let e = &entries[k];
        let name = chars_of(e.name.as_str());
        proof {
            assert(entries@[k as int] == *e);
        }
        if name.len() > 0 && name[name.len() - 1] == '/' {
            match &e.node {
                KvNode::Dir(ch) => {
                    let v = build_value(ch);
                    let key = trim_slashes_exec(&name);
                    proof {
                        lemma_members_push(obj@, key, v);
                    }
                    obj.push((key, v));
                },
                KvNode::Leaf(_) => {},
            }
            proof {
                assert forall|b: Seq<char>| #[trigger] idxs_of(p2, b) == idxs_of(p, b) by {}
            }
        } else {
            match split_array_name(e.name.as_str()) {
                Some((b, i)) => {
                    let bc = chars_of(b.as_str());
                    let mut g: usize = 0;
                    while g < bases.len() && !crate::text::chars_eq(&bases[g], &bc)
                        invariant
                            0 <= g <= bases@.len(),
                            forall|h: int| 0 <= h < g ==> bases@[h]@ != bc@,
                        decreases bases@.len() - g,
                    {
                        g = g + 1;
                    }
                    proof {
                        assert forall|b2: Seq<char>| #[trigger] idxs_of(p2, b2) == (if b2 == bc@ {
                            idxs_of(p, b2).push(i)
                        } else {
                            idxs_of(p, b2)
                        }) by {}
                    }
                    if g < bases.len() {
                        let mut cur: Vec<usize> = Vec::new();
                        groups.set_and_swap(g, &mut cur);
                        cur.push(i);
                        groups.set(g, cur);
                        proof {
                            assert forall|b2: Seq<char>|
                                #[trigger] idxs_of(p2, b2).len() > 0 implies exists|h: int|
                                    0 <= h < bases@.len() && #[trigger] bases@[h]@ == b2 by {
                                if b2 != bc@ {
                                    assert(idxs_of(p, b2).len() > 0);
                                }
                            }
                        }
                    } else {
                        let ghost old_bases = bases@;
                        bases.push(bc);
                        let mut cur: Vec<usize> = Vec::new();
                        cur.push(i);
                        groups.push(cur);
                        proof {
                            let last = bases@.len() - 1;
                            assert(bases@[last]@ == bc@);
                            assert forall|h: int| 0 <= h < last implies #[trigger] groups@[h]@
                                == idxs_of(p2, bases@[h]@) by {
                                assert(bases@[h]@ != bc@);
                            }
                            assert(idxs_of(p, bc@).len() == 0) by {
                                if idxs_of(p, bc@).len() > 0 {
                                    let h = choose|h: int|
                                        0 <= h < old_bases.len() && #[trigger] old_bases[h]@ == bc@;
                                    assert(bases@[h] == old_bases[h]);
                                }
                            }
                            assert(groups@[last]@ =~= idxs_of(p2, bc@));
                            assert forall|b2: Seq<char>|
                                #[trigger] idxs_of(p2, b2).len() > 0 implies exists|h: int|
                                    0 <= h < bases@.len() && #[trigger] bases@[h]@ == b2 by {
                                if b2 != bc@ {
                                    assert(idxs_of(p, b2).len() > 0);
                                    let h = choose|h: int|
                                        0 <= h < old_bases.len() && #[trigger] old_bases[h]@ == b2;
                                    assert(bases@[h] == old_bases[h]);
                                    assert(bases@[h]@ == b2);
                                } else {
                                    assert(bases@[last]@ == b2);
                                }
                            }
                        }
                    }
                },
                None => {
                    match &e.node {
                        KvNode::Leaf(l) => {
                            let v = decode_leaf(&l.data, &l.head);
                            let key = e.name.clone();
                            proof {
                                lemma_members_push(obj@, key, v);
                            }
                            obj.push((key, v));
                        },
                        KvNode::Dir(_) => {},
                    }
                    proof {
                        assert forall|b: Seq<char>| #[trigger] idxs_of(p2, b) == idxs_of(p, b) by {}
                    }
                },
            }
        }
        k = k + 1;
    }
    proof {
        assert(entries@.subrange(0, entries@.len() as int) =~= entries@);
        assert forall|g: int| 0 <= g < bases@.len() implies #[trigger] idxs_of(
            entries@,
            bases@[g]@,
        ).len() > 0 by {
            assert(groups@[g]@.len() > 0);
        }
    }
    let ghost pm = plain_map(entries@);
    let ghost sm = scat_map(entries@);
    let ghost mut done: Set<Seq<char>> = Set::empty();
    proof {
        assert(sm.restrict(done) =~= Map::<Seq<char>, JsonView>::empty());
        assert(pm.union_prefer_right(Map::<Seq<char>, JsonView>::empty()) =~= pm);
    }
    let mut gi: usize = 0;
    while gi < bases.len()
        invariant
            0 <= gi <= bases@.len(),
            bases@.len() == groups@.len(),
            sm == scat_map(entries@),
            pm == plain_map(entries@),
            snapshot_ok(entries@),
            forall|g: int|
                gi <= g < groups@.len() ==> #[trigger] groups@[g]@ == idxs_of(
                    entries@,
                    bases@[g]@,
                ),
            forall|g: int| 0 <= g < bases@.len() ==> #[trigger] idxs_of(entries@, bases@[g]@).len() > 0,
            forall|g1: int, g2: int|
                0 <= g1 < g2 < bases@.len() ==> #[trigger] bases@[g1]@ != #[trigger] bases@[g2]@,
            forall|x: Seq<char>|
                #[trigger] done.contains(x) <==> exists|g: int|
                    0 <= g < gi && #[trigger] bases@[g]@ == x,
            assoc_map(members_view(obj@)) == pm.union_prefer_right(sm.restrict(done)),
        decreases bases@.len() - gi,
    {
        let ghost b = bases@[gi as int]@;
        let mut idx: Vec<usize> = Vec::new();
        groups.set_and_swap(gi, &mut idx);
        sort_indices(&mut idx);
        proof {
            lemma_idx_leq_total();
            idxs_of(entries@, b).lemma_sort_by_ensures(idx_leq());
            lemma_sorted_unique(idx@, idxs_of(entries@, b).sort_by(idx_leq()));
            lemma_idxs_ok(entries@, b);
            let xs = idxs_of(entries@, b);
            assert forall|t: int| 0 <= t < idx@.len() implies element_ok(
                entries@,
                b,
                #[trigger] idx@[t] as nat,
            ) by {
                broadcast use vstd::seq_lib::group_to_multiset_ensures;

                assert(idx@.contains(idx@[t]));
                assert(xs.contains(idx@[t]));
                let u = choose|u: int| 0 <= u < xs.len() && xs[u] == idx@[t];
                assert(element_ok(entries@, b, xs[u] as nat));
            }
        }
        let mut items: Vec<JsonValue> = Vec::new();
        let mut j: usize = 0;
        while j < idx.len()
            invariant
                0 <= j <= idx@.len(),
                gi < bases@.len(),
                bases@[gi as int]@ == b,
                forall|t: int|
                    0 <= t < idx@.len() ==> element_ok(entries@, b, #[trigger] idx@[t] as nat),
                items@.len() == j,
                forall|t: int|
                    0 <= t < j ==> #[trigger] items@[t]@ == lookup_json(
                        entries@,
                        b,
                        idx@[t] as nat,
                    ),
            decreases idx@.len() - j,
        {
            let key = element_key(&bases[gi], idx[j]);
            let none: Option<TlvHead> = None;
            let empty: Vec<u8> = Vec::new();
            let v = match find_leaf(entries, &key) {
                Some(t) => match &entries[t].node {
                    KvNode::Leaf(l) => decode_leaf(&l.data, &l.head),
                    KvNode::Dir(_) => decode_leaf(&empty, &none),
                },
                None => decode_leaf(&empty, &none),
            };
            items.push(v);
            j = j + 1;
        }
        proof {
            lemma_array_items(
                items@,
                idx@.map_values(|i: usize| lookup_json(entries@, b, i as nat)),
            );
        }
        let key = string_of(&bases[gi]);
        let arr = JsonValue::Array(items);
        proof {
            lemma_members_push(obj@, key, arr);
            assert(sm.dom().contains(b));
            assert(arr@ == sm[b]);
            let d2 = done.insert(b);
            assert(pm.union_prefer_right(sm.restrict(done)).insert(b, arr@) =~= pm.union_prefer_right(
                sm.restrict(d2),
            ));
        }
        obj.push((key, arr));
        proof {
            done = done.insert(b);
            assert forall|x: Seq<char>| #[trigger] done.contains(x) <==> exists|g: int|
                0 <= g < gi + 1 && #[trigger] bases@[g]@ == x by {
                if x == b {
                    assert(bases@[gi as int]@ == x);
                }
            }
        }
        gi = gi + 1;
    }
    proof {
        assert(done =~= sm.dom()) by {
            assert forall|x: Seq<char>| done.contains(x) <==> #[trigger] sm.dom().contains(x) by {
                if sm.dom().contains(x) {
                    assert(idxs_of(entries@, x).len() > 0);
                    let g = choose|g: int| 0 <= g < bases@.len() && #[trigger] bases@[g]@ == x;
                    assert(bases@[g]@ == x);
                }
                if done.contains(x) {
                    let g = choose|g: int| 0 <= g < gi && #[trigger] bases@[g]@ == x;
                    assert(idxs_of(entries@, bases@[g]@).len() > 0);
                }
            }
        }
        assert(sm.restrict(done) =~= sm);
    }
    JsonValue::Object(obj)
}

} // verus!

verus! {

/// The key `b[i]` splits back into base `b` and index `i`.
pub proof fn lemma_element_name_split(b: Seq<char>, i: nat)
    requires
        b.len() > 0,
        i <= usize::MAX,
    ensures
        split_array_name_spec(element_name(b, i)) == Some((b, i)),
        !is_dir_name(element_name(b, i)),
{
    let n = element_name(b, i);
    let d = decimal(i);
    crate::text::lemma_decimal(i);
    crate::text::lemma_parse_decimal(i, usize::MAX as nat);
    let lt = b.len() as int;
    assert(n[lt] == '[');
    assert forall|j: int| lt < j < n.len() implies n[j] != '[' by {
        if j < n.len() - 1 {
            assert(n[j] == d[j - lt - 1]);
        }
    }
    crate::text::lemma_last_index_of_is(n, '[', lt);
    assert(n.subrange(lt + 1, n.len() - 1) =~= d);
    assert(n.subrange(0, lt) =~= b);
}

/// Can stored bytes be read without fault?
pub fn leaf_readable(l: &KvLeaf) -> (b: bool)
    ensures
        b == leaf_ok(*l),
{
    let fits = match &l.head {
        Some(h) => crate::tlv::dims_fit(&h.dims),
        None => true,
    };
    if !fits {
        return false;
    }
    let (kind, raw, n) = parse_tlv(&l.data, &l.head);
    if n <= 1 {
        return true;
    }
    let k = chars_of(kind.as_str());
    proof {
        crate::encode::lemma_kind_literals();
    }
    if eq_lit(&k, "bool") {
        return n <= raw.len();
    }
    let es = elem_size(kind.as_str());
    if is_int_kind_exec(&k) || eq_lit(&k, "float32") || eq_lit(&k, "float64") {
        proof {
            crate::encode::lemma_elem_sizes(kind@);
        }
        let ok = n <= raw.len() / es;
        proof {
            if ok {
                assert(n * es <= raw@.len()) by (nonlinear_arith)
                    requires
                        n <= raw@.len() / (es as nat),
                        es > 0,
                ;
            } else {
                assert(n * es > raw@.len()) by (nonlinear_arith)
                    requires
                        n > raw@.len() / (es as nat),
                        es > 0,
                ;
            }
        }
        ok
    } else {
        true
    }
}

/// Can reading a listed subtree read every stored value it reads without
/// fault?
pub fn snapshot_readable(entries: &Vec<KvEntry>) -> (b: bool)
    ensures
        b == snapshot_ok(entries@),
    decreases entries@,
{
    let mut k: usize = 0;
    while k < entries.len()
        invariant
            0 <= k <= entries@.len(),
            forall|i: int|
                #![trigger entries@[i]]
                0 <= i < k ==> entry_ok(
                    entries@,
                    entries@[i],
                    match entries@[i].node {
                        KvNode::Dir(ch) => snapshot_ok(ch@),
                        KvNode::Leaf(_) => true,
                    },
                ),
        decreases entries@.len() - k,
    {
        let e = &entries[k];
        proof {
            assert(entries@[k as int] == *e);
        }
        let name = chars_of(e.name.as_str());
        let ok = if name.len() > 0 && name[name.len() - 1] == '/' {
            match &e.node {
                KvNode::Dir(ch) => snapshot_readable(ch),
                KvNode::Leaf(_) => true,
            }
        } else {
            match split_array_name(e.name.as_str()) {
                Some((b, i)) => {
                    let bc = chars_of(b.as_str());
                    let key = element_key(&bc, i);
                    match find_leaf(entries, &key) {
                        Some(t) => match &entries[t].node {
                            KvNode::Leaf(l) => leaf_readable(l),
                            KvNode::Dir(_) => true,
                        },
                        None => true,
                    }
                },
                None => match &e.node {
                    KvNode::Leaf(l) => leaf_readable(l),
                    KvNode::Dir(_) => true,
                },
            }
        };
        if !ok {
            return false;
        }
        k = k + 1;
    }
    true
}

} // verus!

verus! {

// ── laws of reading stored values ────────────────────────────────────

/// Text reads back as itself whatever element count its head gives: text
/// stored as UTF-32 (as `set_kv` stores it, with its length as dimension)
/// and text stored as UTF-8 both read back as the string.
pub proof fn lemma_text_reads_back(s: Seq<char>, n: nat)
    ensures
        tlv_json("char/utf32"@, crate::tlv::utf32_bytes(s), n) == JsonView::Str(s),
        tlv_json("char/utf8"@, vstd::utf8::encode_utf8(s), n) == JsonView::Str(s),
{
    crate::encode::lemma_kind_literals();
    crate::tlv::lemma_utf32_roundtrip(s);
    vstd::utf8::encode_utf8_valid_utf8(s);
    vstd::utf8::encode_utf8_decode_utf8(s);
}

} // verus!

verus! {

// ── the law of scattered arrays ─────────────────────────────────────

/// Is `e` a listed stored-value key `b[i]` of scattered array `b`?
pub open spec fn is_element_of(b: Seq<char>) -> spec_fn(KvEntry) -> bool {
    |e: KvEntry|
        !is_dir_name(e.name@) && match split_array_name_spec(e.name@) {
            Some((b2, _)) => b2 == b,
            None => false,
        }
}

/// The index `i` of a listed key `b[i]`.
pub open spec fn element_index(e: KvEntry) -> usize {
    match split_array_name_spec(e.name@) {
        Some((_, i)) => i as usize,
        None => 0,
    }
}

proof fn lemma_idxs_of_filter(s: Seq<KvEntry>, b: Seq<char>)
    ensures
        idxs_of(s, b) == s.filter(is_element_of(b)).map_values(|e: KvEntry| element_index(e)),
    decreases s.len(),
{
    reveal(Seq::filter);
    if s.len() > 0 {
        lemma_idxs_of_filter(s.drop_last(), b);
        let f = s.drop_last().filter(is_element_of(b));
        let e = s.last();
        if is_element_of(b)(e) {
            assert(f.push(e).map_values(|e: KvEntry| element_index(e)) =~= f.map_values(
                |e: KvEntry| element_index(e),
            ).push(element_index(e)));
        }
    }
}

/// A scattered array has one element per listed key `b[i]` of its base:
/// its length is the number of such keys, and its `k`-th element is the
/// value stored under the `k`-th smallest listed index (a value that is not
/// stored as a key of its own reads as a missing value).
pub proof fn lemma_scattered_array(s: Seq<KvEntry>, b: Seq<char>)
    requires
        s.filter(is_element_of(b)).len() > 0,
    ensures
        dir_json(s).dom().contains(b),
        dir_json(s)[b] matches JsonView::Array(a) && a.len() == s.filter(is_element_of(b)).len()
            && exists|ks: Seq<usize>|
            {
                &&& ks.len() == a.len()
                &&& forall|i: int, j: int| 0 <= i <= j < ks.len() ==> ks[i] <= ks[j]
                &&& ks.to_multiset() == s.filter(is_element_of(b)).map_values(
                    |e: KvEntry| element_index(e),
                ).to_multiset()
                &&& forall|k: int|
                    0 <= k < a.len() ==> #[trigger] a[k] == match lookup_leaf(
                        s,
                        element_name(b, ks[k] as nat),
                    ) {
                        Some(l) => leaf_json(l),
                        None => missing_json(),
                    }
            },
{
    lemma_idxs_of_filter(s, b);
    let xs = idxs_of(s, b);
    let ks = xs.sort_by(idx_leq());
    lemma_idx_leq_total();
    xs.lemma_sort_by_ensures(idx_leq());
    assert(scat_map(s).dom().contains(b));
    let a = ks.map_values(|i: usize| lookup_json(s, b, i as nat));
    assert(dir_json(s)[b] == JsonView::Array(a));
    assert forall|i: int, j: int| 0 <= i <= j < ks.len() implies ks[i] <= ks[j] by {
        if i < j {
            assert(idx_leq()(ks[i], ks[j]));
        }
    }
    assert(forall|k: int| 0 <= k < a.len() ==> #[trigger] a[k] == lookup_json(s, b, ks[k] as nat));
    let f = s.filter(is_element_of(b));
    assert(xs.len() == f.len());
    assert(ks.len() == xs.len()) by {
        broadcast use vstd::seq_lib::group_to_multiset_ensures;

        assert(ks.to_multiset().len() == ks.len());
        assert(xs.to_multiset().len() == xs.len());
    }
    assert(a.len() == f.len());
    assert({
        &&& ks.len() == a.len()
        &&& forall|i: int, j: int| 0 <= i <= j < ks.len() ==> ks[i] <= ks[j]
        &&& ks.to_multiset() == f.map_values(|e: KvEntry| element_index(e)).to_multiset()
        &&& forall|k: int|
            0 <= k < a.len() ==> #[trigger] a[k] == match lookup_leaf(
                s,
                element_name(b, ks[k] as nat),
            ) {
                Some(l) => leaf_json(l),
                None => missing_json(),
            }
    });
}

} // verus!
