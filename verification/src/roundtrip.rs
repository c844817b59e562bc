//! JSON → KV → JSON: a JSON object stored with `json.from` and read back
//! with `json.to` gives back what was stored, up to the typing that the
//! stored kinds impose.
use vstd::prelude::*;

use crate::encode::{
    all_i64, array_back, f64_raw, i64_raw, lemma_array_roundtrip, lemma_f64_raw_shape,
    lemma_i64_raw_shape, lemma_kind_literals, lemma_value_roundtrip, member_req, read_back,
    JsonInput, RequestView,
};
use crate::json::{
    dir_json, entry_ok, idxs_of, is_dir_name, leaf_json, leaf_ok, plain_map, scat_map, snapshot_ok,
    split_array_name_spec, tlv_json_ok, trim_slashes, JsonView, KvEntry, KvLeaf, KvNode,
};
use crate::tlv::{head_fits, tlv_parts};

verus! {

// ── what the store holds once an object is written ──────────────────

/// Does writing member value `val` leave anything under its key?
pub open spec fn is_stored(val: JsonInput) -> bool {
    val is Object || !(member_req(val) is Empty)
}

/// What reading a key back gives once request `r` is stored there: its
/// kind, body and element count (a UTF-8 string is stored as `char/utf8`);
/// `None` for a request that stores nothing.
pub open spec fn stored_parts(r: RequestView) -> Option<(Seq<char>, Seq<u8>, nat)> {
    match r {
        RequestView::Encode(k, raw, n) => Some((k, raw, n)),
        RequestView::CharBytes(b) => Some(("char/utf8"@, b, 1)),
        RequestView::Empty => None,
    }
}

/// Stored value `l` holds what request `r` asked for.
pub open spec fn holds_request(l: KvLeaf, r: RequestView) -> bool {
    head_fits(l.head) && stored_parts(r) == Some(tlv_parts(l.data@, l.head))
}

/// Listed entry `e` is what the store lists for member `(k, val)` once the
/// member is written: the directory `k/` for a nested object, otherwise the
/// stored value `k`, holding the member's request.
pub open spec fn lists_member(e: KvEntry, k: Seq<char>, val: JsonInput) -> bool {
    match val {
        JsonInput::Object(_) => e.name@ == k + seq!['/'] && e.node is Dir,
        _ => e.name@ == k && match e.node {
            KvNode::Leaf(l) => holds_request(l, member_req(val)),
            KvNode::Dir(_) => false,
        },
    }
}

/// Listing `s` is what the store lists under a directory once object
/// members `ms` are written there: each entry lists a member, each member
/// that leaves anything is listed, no name is listed twice, and the
/// directory of a nested object lists that object in turn.
pub open spec fn lists_object(s: Seq<KvEntry>, ms: Seq<(String, JsonInput)>) -> bool
    decreases ms,
{
    &&& forall|i: int|
        #![trigger s[i]]
        0 <= i < s.len() ==> exists|j: int|
            0 <= j < ms.len() && #[trigger] lists_member(s[i], ms[j].0@, ms[j].1)
    &&& forall|j: int|
        #![trigger ms[j]]
        0 <= j < ms.len() && is_stored(ms[j].1) ==> exists|i: int|
            0 <= i < s.len() && #[trigger] lists_member(s[i], ms[j].0@, ms[j].1)
    &&& forall|i1: int, i2: int|
        0 <= i1 < i2 < s.len() ==> #[trigger] s[i1].name@ != #[trigger] s[i2].name@
    &&& forall|i: int, j: int|
        0 <= i < s.len() && 0 <= j < ms.len() && #[trigger] lists_member(s[i], ms[j].0@, ms[j].1)
            ==> match s[i].node {
            KvNode::Dir(ch) => match ms[j].1 {
                JsonInput::Object(m) => lists_object(ch@, m@),
                _ => true,
            },
            KvNode::Leaf(_) => true,
        }
}

// ── what the object reads back as ──────────────────────────────────

/// A member key that reads back as itself: it does not end with `/` and is
/// not of the scattered form `b[i]`.
pub open spec fn plain_key(k: Seq<char>) -> bool {
    !is_dir_name(k) && split_array_name_spec(k) is None
}

/// Every key of `ms`, at any depth, is plain, and no object repeats a key.
pub open spec fn plain_object(ms: Seq<(String, JsonInput)>) -> bool
    decreases ms, 1nat,
{
    &&& forall|j: int| #![trigger ms[j]] 0 <= j < ms.len() ==> plain_key(ms[j].0@)
    &&& forall|j1: int, j2: int|
        #![trigger ms[j1], ms[j2]]
        0 <= j1 < j2 < ms.len() ==> ms[j1].0@ != ms[j2].0@
    &&& forall|j: int| #![trigger ms[j]] 0 <= j < ms.len() ==> plain_value(ms[j].1)
}

pub open spec fn plain_value(v: JsonInput) -> bool
    decreases v, 0nat,
{
    match v {
        JsonInput::Object(m) => plain_object(m@),
        _ => true,
    }
}

/// The JSON value that member value `val` reads back as once stored.
pub open spec fn back_value(val: JsonInput) -> JsonView
    decreases val, 0nat,
{
    match val {
        JsonInput::Object(m) => JsonView::Object(back_object(m@)),
        JsonInput::Array(a) => array_back(a@),
        _ => read_back(val),
    }
}

/// The object that members `ms` read back as: each member that leaves
/// anything, under its key.
pub open spec fn back_object(ms: Seq<(String, JsonInput)>) -> Map<Seq<char>, JsonView>
    decreases ms, 1nat,
{
    if ms.len() == 0 {
        Map::empty()
    } else {
        let m = back_object(ms.drop_last());
        if is_stored(ms.last().1) {
            m.insert(ms.last().0@, back_value(ms.last().1))
        } else {
            m
        }
    }
}

// ── the listing side ───────────────────────────────────────────────

/// An entry that `plain_map` takes up: a directory under a directory name,
/// or a stored value under a name that is neither a directory name nor a
/// scattered element.
spec fn counted(e: KvEntry) -> bool {
    if is_dir_name(e.name@) {
        e.node is Dir
    } else {
        split_array_name_spec(e.name@) is None && e.node is Leaf
    }
}

/// The member key that `plain_map` files entry `e` under.
spec fn key_of(e: KvEntry) -> Seq<char> {
    if is_dir_name(e.name@) {
        trim_slashes(e.name@)
    } else {
        e.name@
    }
}

/// The member value that `plain_map` files entry `e` as.
spec fn entry_json(e: KvEntry) -> JsonView {
    match e.node {
        KvNode::Dir(ch) => JsonView::Object(plain_map(ch@).union_prefer_right(scat_map(ch@))),
        KvNode::Leaf(l) => leaf_json(l),
    }
}

proof fn lemma_plain_map_lookup(s: Seq<KvEntry>)
    requires
        forall|i: int| 0 <= i < s.len() ==> counted(#[trigger] s[i]),
        forall|i1: int, i2: int|
            0 <= i1 < i2 < s.len() ==> key_of(#[trigger] s[i1]) != key_of(#[trigger] s[i2]),
    ensures
        forall|x: Seq<char>|
            #[trigger] plain_map(s).dom().contains(x) <==> exists|i: int|
                0 <= i < s.len() && key_of(#[trigger] s[i]) == x,
        forall|i: int|
            0 <= i < s.len() ==> #[trigger] plain_map(s)[key_of(s[i])] == entry_json(s[i]),
    decreases s.len(),
{
    if s.len() > 0 {
        let p = s.drop_last();
        assert forall|i: int| 0 <= i < p.len() implies counted(#[trigger] p[i]) by {
            assert(p[i] == s[i]);
        }
        assert forall|i1: int, i2: int| 0 <= i1 < i2 < p.len() implies key_of(#[trigger] p[i1])
            != key_of(#[trigger] p[i2]) by {
            assert(p[i1] == s[i1] && p[i2] == s[i2]);
        }
        lemma_plain_map_lookup(p);
        let e = s.last();
        assert(counted(s[s.len() - 1]));
        assert(plain_map(s) == plain_map(p).insert(key_of(e), entry_json(e)));
        assert forall|x: Seq<char>| #[trigger] plain_map(s).dom().contains(x) <==> exists|i: int|
            0 <= i < s.len() && key_of(#[trigger] s[i]) == x by {
            if plain_map(p).dom().contains(x) {
                let i = choose|i: int| 0 <= i < p.len() && key_of(#[trigger] p[i]) == x;
                assert(s[i] == p[i]);
            }
            if exists|i: int| 0 <= i < s.len() && key_of(#[trigger] s[i]) == x {
                let i = choose|i: int| 0 <= i < s.len() && key_of(#[trigger] s[i]) == x;
                if i < s.len() - 1 {
                    assert(p[i] == s[i]);
                }
            }
        }
        assert forall|i: int| 0 <= i < s.len() implies #[trigger] plain_map(s)[key_of(s[i])]
            == entry_json(s[i]) by {
            if i < s.len() - 1 {
                assert(p[i] == s[i]);
                assert(key_of(s[i]) != key_of(s[s.len() - 1]));
            }
        }
    }
}

proof fn lemma_no_scat(s: Seq<KvEntry>)
    requires
        forall|i: int|
            0 <= i < s.len() ==> is_dir_name(#[trigger] s[i].name@) || split_array_name_spec(
                s[i].name@,
            ) is None,
    ensures
        forall|b: Seq<char>| #[trigger] idxs_of(s, b) == Seq::<usize>::empty(),
    decreases s.len(),
{
    if s.len() > 0 {
        let p = s.drop_last();
        assert forall|i: int| 0 <= i < p.len() implies is_dir_name(#[trigger] p[i].name@)
            || split_array_name_spec(p[i].name@) is None by {
            assert(p[i] == s[i]);
        }
        lemma_no_scat(p);
        assert(is_dir_name(s[s.len() - 1].name@) || split_array_name_spec(s[s.len() - 1].name@) is None);
        assert forall|b: Seq<char>| #[trigger] idxs_of(s, b) == idxs_of(p, b) by {}
    }
}

// ── the object side ────────────────────────────────────────────────

proof fn lemma_back_object_lookup(ms: Seq<(String, JsonInput)>)
    requires
        forall|j1: int, j2: int|
            #![trigger ms[j1], ms[j2]]
            0 <= j1 < j2 < ms.len() ==> ms[j1].0@ != ms[j2].0@,
    ensures
        forall|x: Seq<char>|
            #[trigger] back_object(ms).dom().contains(x) <==> exists|j: int|
                #![trigger ms[j]]
                0 <= j < ms.len() && is_stored(ms[j].1) && ms[j].0@ == x,
        forall|j: int|
            #![trigger ms[j]]
            0 <= j < ms.len() && is_stored(ms[j].1) ==> back_object(ms)[ms[j].0@] == back_value(
                ms[j].1,
            ),
    decreases ms.len(),
{
    if ms.len() > 0 {
        let p = ms.drop_last();
        assert forall|j1: int, j2: int|
            #![trigger p[j1], p[j2]]
            0 <= j1 < j2 < p.len() implies p[j1].0@ != p[j2].0@ by {
            assert(p[j1] == ms[j1] && p[j2] == ms[j2]);
        }
        lemma_back_object_lookup(p);
        let last = ms.len() - 1;
        assert(ms.last() == ms[last]);
        assert forall|x: Seq<char>| #[trigger] back_object(ms).dom().contains(x) <==> exists|j: int|
            #![trigger ms[j]]
            0 <= j < ms.len() && is_stored(ms[j].1) && ms[j].0@ == x by {
            if back_object(p).dom().contains(x) {
                let j = choose|j: int|
                    #![trigger p[j]]
                    0 <= j < p.len() && is_stored(p[j].1) && p[j].0@ == x;
                assert(ms[j] == p[j]);
            }
            if exists|j: int|
                #![trigger ms[j]]
                0 <= j < ms.len() && is_stored(ms[j].1) && ms[j].0@ == x {
                let j = choose|j: int|
                    #![trigger ms[j]]
                    0 <= j < ms.len() && is_stored(ms[j].1) && ms[j].0@ == x;
                if j < last {
                    assert(p[j] == ms[j]);
                }
            }
        }
        assert forall|j: int|
            #![trigger ms[j]]
            0 <= j < ms.len() && is_stored(ms[j].1) implies back_object(ms)[ms[j].0@]
            == back_value(ms[j].1) by {
            if j < last {
                assert(p[j] == ms[j]);
                assert(ms[j].0@ != ms[last].0@);
            }
        }
    }
}

// ── one member ─────────────────────────────────────────────────────

/// A stored value that holds a member's request can be read, and reads
/// back as the member's value.
proof fn lemma_member_leaf(l: KvLeaf, val: JsonInput)
    requires
        !(val is Object),
        holds_request(l, member_req(val)),
    ensures
        leaf_ok(l),
        leaf_json(l) == back_value(val),
{
    lemma_kind_literals();
    let p = tlv_parts(l.data@, l.head);
    match val {
        JsonInput::Array(a) => {
            let arr = a@;
            assert(arr.len() >= 1 && (arr[0] is Number || arr[0] is Bool));
            lemma_array_roundtrip(arr);
            assert(p.2 == arr.len());
            match arr[0] {
                JsonInput::Number(_) => {
                    if all_i64(arr) {
                        lemma_i64_raw_shape(arr);
                        assert(p.0 == "int64"@ && p.1 == i64_raw(arr));
                    } else {
                        lemma_f64_raw_shape(arr);
                        assert(p.0 == "float64"@ && p.1 == f64_raw(arr));
                    }
                },
                _ => {
                    assert(p.0 == "bool"@ && p.1.len() == arr.len());
                },
            }
            assert(tlv_json_ok(p.0, p.1, p.2));
        },
        _ => {
            lemma_value_roundtrip(val);
            assert(p.2 == 1);
        },
    }
}

// ── the law ────────────────────────────────────────────────────────

/// The facts that one listed entry gives: it is the member it lists, can
/// be read, and reads back as that member.
proof fn lemma_entry(s: Seq<KvEntry>, ms: Seq<(String, JsonInput)>, i: int, j: int)
    requires
        lists_object(s, ms),
        plain_object(ms),
        0 <= i < s.len(),
        0 <= j < ms.len(),
        lists_member(s[i], ms[j].0@, ms[j].1),
    ensures
        counted(s[i]),
        key_of(s[i]) == ms[j].0@,
        is_stored(ms[j].1),
        match s[i].node {
            KvNode::Leaf(l) => leaf_ok(l),
            KvNode::Dir(ch) => snapshot_ok(ch@),
        },
        entry_json(s[i]) == back_value(ms[j].1),
    decreases ms, 0nat,
{
    let e = s[i];
    let k = ms[j].0@;
    let val = ms[j].1;
    assert(plain_key(k) && plain_value(val));
    match val {
        JsonInput::Object(m) => {
            assert((e.name@).drop_last() =~= k);
            assert(trim_slashes(e.name@) == trim_slashes(k));
            match e.node {
                KvNode::Dir(ch) => {
                    assert(lists_object(ch@, m@));
                    assert(decreases_to!(ms => ms[j]));
                    assert(decreases_to!(ms[j] => ms[j].1));
                    assert(decreases_to!(ms[j].1 => m));
                    assert(decreases_to!(m => m@));
                    lemma_object_roundtrip(ch@, m@);
                },
                KvNode::Leaf(_) => {},
            }
        },
        _ => {
            match e.node {
                KvNode::Leaf(l) => {
                    lemma_member_leaf(l, val);
                },
                KvNode::Dir(_) => {},
            }
        },
    }
}

/// Storing a JSON object and reading it back gives it back: when listing
/// `s` is what the store lists once object members `ms` are written (what
/// `write_map` plans), every value under it can be read, and it reads as
/// the object of the members that leave anything, each as `back_value`
/// says (integers as themselves, other numbers as their `f64` bits,
/// booleans, strings and nested objects as themselves, arrays of numbers
/// or booleans as `array_back`). Keys must be plain (`plain_key`): a key
/// `b[i]` reads back as an element of a scattered array `b`.
pub proof fn lemma_object_roundtrip(s: Seq<KvEntry>, ms: Seq<(String, JsonInput)>)
    requires
        lists_object(s, ms),
        plain_object(ms),
    ensures
        snapshot_ok(s),
        dir_json(s) == back_object(ms),
    decreases ms, 1nat,
{
    assert forall|i: int, j: int|
        0 <= i < s.len() && 0 <= j < ms.len() && #[trigger] lists_member(s[i], ms[j].0@, ms[j].1)
        implies {
        &&& counted(s[i])
        &&& key_of(s[i]) == ms[j].0@
        &&& is_stored(ms[j].1)
        &&& match s[i].node {
            KvNode::Leaf(l) => leaf_ok(l),
            KvNode::Dir(ch) => snapshot_ok(ch@),
        }
        &&& entry_json(s[i]) == back_value(ms[j].1)
    } by {
        lemma_entry(s, ms, i, j);
    }
    lemma_listing_reads(s, ms);
}

/// The conclusion of `lemma_object_roundtrip`, once each entry is known to
/// read back as the member it lists.
proof fn lemma_listing_reads(s: Seq<KvEntry>, ms: Seq<(String, JsonInput)>)
    requires
        lists_object(s, ms),
        plain_object(ms),
        forall|i: int, j: int|
            0 <= i < s.len() && 0 <= j < ms.len() && #[trigger] lists_member(
                s[i],
                ms[j].0@,
                ms[j].1,
            ) ==> {
                &&& counted(s[i])
                &&& key_of(s[i]) == ms[j].0@
                &&& is_stored(ms[j].1)
                &&& match s[i].node {
                    KvNode::Leaf(l) => leaf_ok(l),
                    KvNode::Dir(ch) => snapshot_ok(ch@),
                }
                &&& entry_json(s[i]) == back_value(ms[j].1)
            },
    ensures
        snapshot_ok(s),
        dir_json(s) == back_object(ms),
{
    assert forall|i: int| #![trigger s[i]] 0 <= i < s.len() implies counted(s[i]) && match s[i].node {
        KvNode::Leaf(l) => leaf_ok(l),
        KvNode::Dir(ch) => snapshot_ok(ch@),
    } && (is_dir_name(s[i].name@) || split_array_name_spec(s[i].name@) is None) by {
        let j = choose|j: int| 0 <= j < ms.len() && #[trigger] lists_member(s[i], ms[j].0@, ms[j].1);
    }
    // Distinct entries list distinct keys.
    assert forall|i1: int, i2: int| 0 <= i1 < i2 < s.len() implies key_of(#[trigger] s[i1])
        != key_of(#[trigger] s[i2]) by {
        let j1 = choose|j: int| 0 <= j < ms.len() && #[trigger] lists_member(s[i1], ms[j].0@, ms[j].1);
        let j2 = choose|j: int| 0 <= j < ms.len() && #[trigger] lists_member(s[i2], ms[j].0@, ms[j].1);
        assert(s[i1].name@ != s[i2].name@);
        if j1 < j2 {
            assert(ms[j1].0@ != ms[j2].0@);
        } else if j2 < j1 {
            assert(ms[j2].0@ != ms[j1].0@);
        }
    }
    assert forall|i: int| #![trigger s[i]] 0 <= i < s.len() implies entry_ok(
        s,
        s[i],
        match s[i].node {
            KvNode::Dir(ch) => snapshot_ok(ch@),
            KvNode::Leaf(_) => true,
        },
    ) by {}
    lemma_no_scat(s);
    assert(scat_map(s) =~= Map::<Seq<char>, JsonView>::empty());
    lemma_plain_map_lookup(s);
    lemma_back_object_lookup(ms);
    let pm = plain_map(s);
    let bm = back_object(ms);
    assert forall|x: Seq<char>| #[trigger] pm.dom().contains(x) implies bm.dom().contains(x)
        && pm[x] == bm[x] by {
        let i = choose|i: int| 0 <= i < s.len() && key_of(#[trigger] s[i]) == x;
        let j = choose|j: int| 0 <= j < ms.len() && #[trigger] lists_member(s[i], ms[j].0@, ms[j].1);
        assert(pm[key_of(s[i])] == entry_json(s[i]));
        assert(ms[j] == ms[j]);
    }
    assert forall|x: Seq<char>| #[trigger] bm.dom().contains(x) implies pm.dom().contains(x) by {
        let j = choose|j: int|
            #![trigger ms[j]]
            0 <= j < ms.len() && is_stored(ms[j].1) && ms[j].0@ == x;
        let i = choose|i: int| 0 <= i < s.len() && #[trigger] lists_member(s[i], ms[j].0@, ms[j].1);
        assert(key_of(s[i]) == x);
    }
    assert(pm =~= bm);
    assert(pm.union_prefer_right(scat_map(s)) =~= pm);
}

} // verus!
