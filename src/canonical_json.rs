//! Canonical JSON values: conversion from generic JSON and the canonical text.

use vstd::prelude::*;
use vstd::utf8::encode_utf8;
use crate::json::{JsonNumber, JsonTree, JsonValue, number_as_i64};
use crate::text::{
    append_char, append_decimal, append_str, decimal, is_safe_int, json_quoted, quote, safe_int,
};

verus! {

broadcast use {
    vstd::std_specs::vec::axiom_vec_index_decreases,
    vstd::std_specs::vec::axiom_vec_decreases_to_view,
    vstd::seq::axiom_seq_index_decreases,
    vstd::seq::axiom_seq_subrange_decreases,
};

/// A JSON value in the form that canonical JSON allows.
///
/// A value is canonical (see `is_canonical`) when every integer lies in the
/// range that JSON numbers carry without loss and the members of every
/// object are sorted by the bytes of their keys, each key once.
#[derive(Debug, PartialEq)]
pub enum CanonicalJsonValue {
    /// The JSON `null`.
    Null,
    /// A JSON boolean.
    Bool(bool),
    /// A JSON integer within `MIN_SAFE_INT ..= MAX_SAFE_INT`.
    Integer(i64),
    /// A JSON string.
    String(String),
    /// A JSON array.
    Array(Vec<CanonicalJsonValue>),
    /// A JSON object, its members in ascending byte order of their keys.
    Object(Vec<(String, CanonicalJsonValue)>),
}

/// Why a JSON document has no canonical form.
#[derive(Copy, Clone, Debug, PartialEq, Eq, Hash, Structural)]
pub enum CanonicalJsonError {
    /// A number is not an integer, or lies outside the range that JSON
    /// numbers carry without loss.
    IntConvert,
}

/// The mathematical form of a canonical JSON value.
pub enum CanonicalTree {
    Null,
    Bool(bool),
    Integer(int),
    Str(Seq<char>),
    Array(Seq<CanonicalTree>),
    Object(Seq<(Seq<char>, CanonicalTree)>),
}

/// The mathematical form of `v`.
pub open spec fn canonical_view(v: CanonicalJsonValue) -> CanonicalTree
    decreases v,
{
    match v {
        CanonicalJsonValue::Null => CanonicalTree::Null,
        CanonicalJsonValue::Bool(b) => CanonicalTree::Bool(b),
        CanonicalJsonValue::Integer(n) => CanonicalTree::Integer(n as int),
        CanonicalJsonValue::String(s) => CanonicalTree::Str(s@),
        CanonicalJsonValue::Array(a) => CanonicalTree::Array(
            Seq::new(
                a@.len(),
                |i: int|
                    if 0 <= i < a@.len() {
                        canonical_view(a@[i])
                    } else {
                        CanonicalTree::Null
                    },
            ),
        ),
        CanonicalJsonValue::Object(m) => CanonicalTree::Object(
            Seq::new(
                m@.len(),
                |i: int|
                    if 0 <= i < m@.len() {
                        (m@[i].0@, canonical_view(m@[i].1))
                    } else {
                        (Seq::empty(), CanonicalTree::Null)
                    },
            ),
        ),
    }
}

impl View for CanonicalJsonValue {
    type V = CanonicalTree;

    open spec fn view(&self) -> CanonicalTree {
        canonical_view(*self)
    }
}

/// The mathematical form of a sequence of values.
pub open spec fn items_view(s: Seq<CanonicalJsonValue>) -> Seq<CanonicalTree> {
    Seq::new(s.len(), |i: int| s[i]@)
}

/// The mathematical form of a sequence of object members.
pub open spec fn members_view(s: Seq<(String, CanonicalJsonValue)>) -> Seq<(Seq<char>, CanonicalTree)> {
    Seq::new(s.len(), |i: int| (s[i].0@, s[i].1@))
}

/// Lexicographic order on byte strings: `a` sorts strictly before `b`.
pub open spec fn bytes_lt(a: Seq<u8>, b: Seq<u8>) -> bool
    decreases a.len(),
{
    if b.len() == 0 {
        false
    } else if a.len() == 0 {
        true
    } else if a[0] != b[0] {
        a[0] < b[0]
    } else {
        bytes_lt(a.subrange(1, a.len() as int), b.subrange(1, b.len() as int))
    }
}

/// The bytes by which object keys are ordered: their UTF-8 encoding.
pub open spec fn key_bytes(k: Seq<char>) -> Seq<u8> {
    encode_utf8(k)
}

/// Key `a` sorts strictly before key `b`.
pub open spec fn key_lt(a: Seq<char>, b: Seq<char>) -> bool {
    bytes_lt(key_bytes(a), key_bytes(b))
}

/// The keys of `m` strictly ascend.
pub open spec fn keys_ascending(m: Seq<(Seq<char>, CanonicalTree)>) -> bool {
    forall|i: int, j: int| 0 <= i < j < m.len() ==> key_lt(#[trigger] m[i].0, #[trigger] m[j].0)
}

/// `c` is a canonical value: integers in range, object keys strictly ascending.
pub open spec fn is_canonical(c: CanonicalTree) -> bool
    decreases c,
{
    match c {
        CanonicalTree::Integer(n) => is_safe_int(n),
        CanonicalTree::Array(s) => items_canonical(s),
        CanonicalTree::Object(m) => keys_ascending(m) && members_canonical(m),
        _ => true,
    }
}

/// Every value in `s` is canonical.
pub open spec fn items_canonical(s: Seq<CanonicalTree>) -> bool
    decreases s,
{
    s.len() > 0 ==> is_canonical(s[0]) && items_canonical(s.subrange(1, s.len() as int))
}

/// Every member value in `m` is canonical.
pub open spec fn members_canonical(m: Seq<(Seq<char>, CanonicalTree)>) -> bool
    decreases m,
{
    m.len() > 0 ==> is_canonical(m[0].1) && members_canonical(m.subrange(1, m.len() as int))
}

proof fn lemma_items_canonical(s: Seq<CanonicalTree>)
    ensures
        items_canonical(s) == forall|i: int| 0 <= i < s.len() ==> #[trigger] is_canonical(s[i]),
    decreases s.len(),
{
    if s.len() > 0 {
        let t = s.subrange(1, s.len() as int);
        assert(items_canonical(s) == (is_canonical(s[0]) && items_canonical(t)));
        lemma_items_canonical(t);
        if forall|i: int| 0 <= i < s.len() ==> #[trigger] is_canonical(s[i]) {
            assert forall|i: int| 0 <= i < t.len() implies #[trigger] is_canonical(t[i]) by {
                assert(t[i] == s[i + 1]);
            }
        }
        if items_canonical(s) {
            assert forall|i: int| 0 <= i < s.len() implies #[trigger] is_canonical(s[i]) by {
                if i > 0 {
                    assert(s[i] == t[i - 1]);
                }
            }
        }
    }
}

proof fn lemma_members_canonical(m: Seq<(Seq<char>, CanonicalTree)>)
    ensures
        members_canonical(m) == forall|i: int| 0 <= i < m.len() ==> #[trigger] is_canonical(m[i].1),
    decreases m.len(),
{
    if m.len() > 0 {
        let t = m.subrange(1, m.len() as int);
        assert(members_canonical(m) == (is_canonical(m[0].1) && members_canonical(t)));
        lemma_members_canonical(t);
        if forall|i: int| 0 <= i < m.len() ==> #[trigger] is_canonical(m[i].1) {
            assert forall|i: int| 0 <= i < t.len() implies #[trigger] is_canonical(t[i].1) by {
                assert(t[i] == m[i + 1]);
            }
        }
        if members_canonical(m) {
            assert forall|i: int| 0 <= i < m.len() implies #[trigger] is_canonical(m[i].1) by {
                if i > 0 {
                    assert(m[i] == t[i - 1]);
                }
            }
        }
    }
}

/// Where key `k` belongs in `m`: the length of the prefix of keys below it.
pub open spec fn insert_position(m: Seq<(Seq<char>, CanonicalTree)>, k: Seq<char>) -> nat
    decreases m.len(),
{
    if m.len() == 0 {
        0
    } else if key_lt(m[0].0, k) {
        1 + insert_position(m.subrange(1, m.len() as int), k)
    } else {
        0
    }
}

/// `m` with member `(k, v)` put in its place; a member with the same key is
/// replaced.
pub open spec fn insert_member_spec(
    m: Seq<(Seq<char>, CanonicalTree)>,
    k: Seq<char>,
    v: CanonicalTree,
) -> Seq<(Seq<char>, CanonicalTree)> {
    let p = insert_position(m, k) as int;
    if p < m.len() && key_bytes(m[p].0) == key_bytes(k) {
        m.update(p, (k, v))
    } else {
        m.insert(p, (k, v))
    }
}

proof fn lemma_insert_position(m: Seq<(Seq<char>, CanonicalTree)>, k: Seq<char>, i: int)
    requires
        0 <= i <= m.len(),
        forall|j: int| 0 <= j < i ==> key_lt(#[trigger] m[j].0, k),
        i == m.len() || !key_lt(m[i].0, k),
    ensures
        insert_position(m, k) == i,
    decreases i,
{
    if i > 0 {
        let t = m.subrange(1, m.len() as int);
        assert forall|j: int| 0 <= j < i - 1 implies key_lt(#[trigger] t[j].0, k) by {
            assert(t[j] == m[j + 1]);
        }
        if i < m.len() {
            assert(t[i - 1] == m[i]);
        }
        lemma_insert_position(t, k, i - 1);
        assert(key_lt(m[0].0, k));
    }
}

/// Compares two byte strings: negative when `a` sorts before `b`, zero when equal.
fn compare_bytes(a: &[u8], b: &[u8]) -> (r: i8)
    ensures
        (r < 0) == bytes_lt(a@, b@),
        (r == 0) == (a@ == b@),
{
    let mut i: usize = 0;
    proof {
        assert(a@.subrange(0, a@.len() as int) =~= a@);
        assert(b@.subrange(0, b@.len() as int) =~= b@);
    }
    while i < a.len() && i < b.len()
        invariant
            i <= a@.len(),
            i <= b@.len(),
            a@.subrange(0, i as int) == b@.subrange(0, i as int),
            bytes_lt(a@, b@) == bytes_lt(
                a@.subrange(i as int, a@.len() as int),
                b@.subrange(i as int, b@.len() as int),
            ),
        decreases a@.len() - i,
    {
        let ghost sa = a@.subrange(i as int, a@.len() as int);
        let ghost sb = b@.subrange(i as int, b@.len() as int);
        if a[i] != b[i] {
            proof {
                assert(sa[0] == a@[i as int] && sb[0] == b@[i as int]);
                assert(a@.subrange(0, i as int + 1)[i as int] != b@.subrange(0, i as int + 1)[i as int]);
            }
            if a[i] < b[i] {
                return -1;
            } else {
                return 1;
            }
        }
        proof {
            assert(sa.subrange(1, sa.len() as int) =~= a@.subrange(i + 1, a@.len() as int));
            assert(sb.subrange(1, sb.len() as int) =~= b@.subrange(i + 1, b@.len() as int));
            assert(a@.subrange(0, i + 1) =~= a@.subrange(0, i as int).push(a@[i as int]));
            assert(b@.subrange(0, i + 1) =~= b@.subrange(0, i as int).push(b@[i as int]));
        }
        i = i + 1;
    }
    proof {
        assert(a@.subrange(0, i as int) =~= a@ || b@.subrange(0, i as int) =~= b@);
    }
    if a.len() == b.len() {
        proof {
            assert(a@ =~= a@.subrange(0, i as int));
            assert(b@ =~= b@.subrange(0, i as int));
        }
        0
    } else if a.len() < b.len() {
        proof {
            assert(a@ =~= a@.subrange(0, i as int));
        }
        -1
    } else {
        proof {
            assert(b@ =~= b@.subrange(0, i as int));
        }
        1
    }
}

/// Puts member `(k, v)` in its place in `m`, replacing a member with the same key.
fn insert_member(m: &mut Vec<(String, CanonicalJsonValue)>, k: String, v: CanonicalJsonValue)
    ensures
        members_view(final(m)@) == insert_member_spec(members_view(old(m)@), k@, v@),
{
    let ghost mv = members_view(m@);
    let kb = k.as_str().as_bytes();
    let mut i: usize = 0;
    let mut same = false;
    while i < m.len()
        invariant_except_break
            !same,
        invariant
            mv == members_view(m@),
            kb@ == key_bytes(k@),
            i <= m@.len(),
            forall|j: int| 0 <= j < i ==> key_lt(#[trigger] mv[j].0, k@),
        ensures
            i <= m@.len(),
            i < m@.len() ==> !key_lt(mv[i as int].0, k@),
            same == (i < m@.len() && key_bytes(mv[i as int].0) == key_bytes(k@)),
        decreases m@.len() - i,
    {
        let c = compare_bytes(m[i].0.as_str().as_bytes(), kb);
        if c >= 0 {
            same = c == 0;
            break;
        }
        i = i + 1;
    }
    proof {
        lemma_insert_position(mv, k@, i as int);
    }
    if same {
        m.remove(i);
    }
    let ghost kv = k@;
    let ghost vv = v@;
    m.insert(i, (k, v));
    proof {
        if same {
            assert(members_view(m@) =~= mv.update(i as int, (kv, vv)));
        } else {
            assert(members_view(m@) =~= mv.insert(i as int, (kv, vv)));
        }
    }
}

/// The canonical form of a generic JSON document, or why it has none.
///
/// Numbers must be integers in the range that JSON numbers carry without loss;
/// object members are placed in key order, a later duplicate key replacing an
/// earlier one.
pub open spec fn convert(j: JsonTree) -> Result<CanonicalTree, CanonicalJsonError>
    decreases j,
{
    match j {
        JsonTree::Null => Ok(CanonicalTree::Null),
        JsonTree::Bool(b) => Ok(CanonicalTree::Bool(b)),
        JsonTree::Number(n) => match number_as_i64(n) {
            Some(i) => if is_safe_int(i as int) {
                Ok(CanonicalTree::Integer(i as int))
            } else {
                Err(CanonicalJsonError::IntConvert)
            },
            None => Err(CanonicalJsonError::IntConvert),
        },
        JsonTree::Str(s) => Ok(CanonicalTree::Str(s)),
        JsonTree::Array(s) => match convert_items(s) {
            Ok(t) => Ok(CanonicalTree::Array(t)),
            Err(e) => Err(e),
        },
        JsonTree::Object(m) => match convert_members(seq![], m) {
            Ok(t) => Ok(CanonicalTree::Object(t)),
            Err(e) => Err(e),
        },
    }
}

/// The canonical forms of a sequence of documents, or the first failure.
pub open spec fn convert_items(s: Seq<JsonTree>) -> Result<Seq<CanonicalTree>, CanonicalJsonError>
    decreases s,
{
    if s.len() == 0 {
        Ok(seq![])
    } else {
        match convert(s[0]) {
            Err(e) => Err(e),
            Ok(c) => match convert_items(s.subrange(1, s.len() as int)) {
                Ok(t) => Ok(seq![c] + t),
                Err(e) => Err(e),
            },
        }
    }
}

/// The members `s` converted and put, one after the other, into `acc`, or the
/// first failure.
pub open spec fn convert_members(
    acc: Seq<(Seq<char>, CanonicalTree)>,
    s: Seq<(Seq<char>, JsonTree)>,
) -> Result<Seq<(Seq<char>, CanonicalTree)>, CanonicalJsonError>
    decreases s,
{
    if s.len() == 0 {
        Ok(acc)
    } else {
        match convert(s[0].1) {
            Err(e) => Err(e),
            Ok(c) => convert_members(
                insert_member_spec(acc, s[0].0, c),
                s.subrange(1, s.len() as int),
            ),
        }
    }
}

/// The result of a conversion, in mathematical form.
pub open spec fn result_view(r: Result<CanonicalJsonValue, CanonicalJsonError>) -> Result<
    CanonicalTree,
    CanonicalJsonError,
> {
    match r {
        Ok(v) => Ok(v@),
        Err(e) => Err(e),
    }
}

impl CanonicalJsonValue {
    /// Converts a generic JSON document into its canonical form.
    ///
    /// Fails with `IntConvert` when any number in it is not an integer in the
    /// range that JSON numbers carry without loss; nothing is built then.
    pub fn try_from_json(json: &JsonValue) -> (r: Result<CanonicalJsonValue, CanonicalJsonError>)
        ensures
            result_view(r) == convert(json@),
            r matches Ok(v) ==> is_canonical(v@),
        decreases json,
    {
        match json {
            JsonValue::Null => Ok(CanonicalJsonValue::Null),
            JsonValue::Bool(b) => Ok(CanonicalJsonValue::Bool(*b)),
            JsonValue::Number(n) => match n.as_i64() {
                Some(i) => match safe_int(i) {
                    Some(k) => Ok(CanonicalJsonValue::Integer(k)),
                    None => Err(CanonicalJsonError::IntConvert),
                },
                None => Err(CanonicalJsonError::IntConvert),
            },
            JsonValue::String(s) => Ok(CanonicalJsonValue::String(s.clone())),
            JsonValue::Array(a) => {
                let ghost jt = json@->Array_0;
                let mut out: Vec<CanonicalJsonValue> = Vec::new();
                let mut i: usize = 0;
                proof {
                    assert(jt.subrange(0, jt.len() as int) =~= jt);
                    assert(items_view(out@) + seq![] =~= items_view(out@));
                }
                while i < a.len()
                    invariant
                        *json == JsonValue::Array(*a),
                        jt == json@->Array_0,
                        jt.len() == a@.len(),
                        i <= a@.len(),
                        convert_items(jt) == match convert_items(jt.subrange(i as int, jt.len() as int)) {
                            Ok(t) => Ok(items_view(out@) + t),
                            Err(e) => Err(e),
                        },
                    decreases a@.len() - i,
                {
                    proof {
                        assert(decreases_to!(*json => (*json)->Array_0));
                        assert(decreases_to!(*a => a@));
                        assert(decreases_to!(a@ => a@[i as int]));
                    }
                    let r = CanonicalJsonValue::try_from_json(&a[i]);
                    let ghost suf = jt.subrange(i as int, jt.len() as int);
                    proof {
                        assert(suf[0] == jt[i as int]);
                        assert(jt[i as int] == a@[i as int]@);
                        assert(suf.subrange(1, suf.len() as int) =~= jt.subrange(i + 1, jt.len() as int));
                    }
                    match r {
                        Err(e) => {
                            return Err(e);
                        },
                        Ok(v) => {
                            let ghost before = items_view(out@);
                            let ghost vv = v@;
                            out.push(v);
                            proof {
                                assert(items_view(out@) =~= before.push(vv));
                                match convert_items(jt.subrange(i + 1, jt.len() as int)) {
                                    Ok(t) => {
                                        assert(before + (seq![vv] + t) =~= items_view(out@) + t);
                                    },
                                    Err(e) => {},
                                }
                            }
                        },
                    }
                    i = i + 1;
                }
                proof {
                    assert(jt.subrange(i as int, jt.len() as int) =~= Seq::<JsonTree>::empty());
                    assert(items_view(out@) + seq![] =~= items_view(out@));
                }
                let ghost outv = out@;
                let r = CanonicalJsonValue::Array(out);
                proof {
                    assert(r@->Array_0 =~= items_view(outv));
                    lemma_convert_is_canonical(json@);
                }
                Ok(r)
            },
            JsonValue::Object(m) => {
                let ghost jm = json@->Object_0;
                let mut out: Vec<(String, CanonicalJsonValue)> = Vec::new();
                let mut i: usize = 0;
                proof {
                    assert(jm.subrange(0, jm.len() as int) =~= jm);
                    assert(members_view(out@) =~= seq![]);
                }
                while i < m.len()
                    invariant
                        *json == JsonValue::Object(*m),
                        jm == json@->Object_0,
                        jm.len() == m@.len(),
                        i <= m@.len(),
                        convert_members(seq![], jm) == convert_members(
                            members_view(out@),
                            jm.subrange(i as int, jm.len() as int),
                        ),
                    decreases m@.len() - i,
                {
                    proof {
                        assert(decreases_to!(*json => (*json)->Object_0));
                        assert(decreases_to!(*m => m@));
                        assert(decreases_to!(m@ => m@[i as int]));
                        assert(decreases_to!(m@[i as int] => m@[i as int].1));
                    }
                    let r = CanonicalJsonValue::try_from_json(&m[i].1);
                    let ghost suf = jm.subrange(i as int, jm.len() as int);
                    proof {
                        assert(suf[0] == jm[i as int]);
                        assert(jm[i as int] == (m@[i as int].0@, m@[i as int].1@));
                        assert(suf.subrange(1, suf.len() as int) =~= jm.subrange(i + 1, jm.len() as int));
                    }
                    match r {
                        Err(e) => {
                            return Err(e);
                        },
                        Ok(v) => {
                            let k = m[i].0.clone();
                            insert_member(&mut out, k, v);
                        },
                    }
                    i = i + 1;
                }
                proof {
                    assert(jm.subrange(i as int, jm.len() as int) =~= Seq::<(Seq<char>, JsonTree)>::empty());
                }
                let ghost outv = out@;
                let r = CanonicalJsonValue::Object(out);
                proof {
                    assert(r@->Object_0 =~= members_view(outv));
                    lemma_convert_is_canonical(json@);
                }
                Ok(r)
            },
        }
    }
}

/// The canonical text of a value: compact JSON without insignificant
/// whitespace, members and elements in stored order.
pub open spec fn render(c: CanonicalTree) -> Seq<char>
    decreases c,
{
    match c {
        CanonicalTree::Null => "null"@,
        CanonicalTree::Bool(b) => if b {
            "true"@
        } else {
            "false"@
        },
        CanonicalTree::Integer(n) => decimal(n),
        CanonicalTree::Str(s) => json_quoted(s),
        CanonicalTree::Array(s) => seq!['['] + render_items(s) + seq![']'],
        CanonicalTree::Object(m) => seq!['{'] + render_members(m) + seq!['}'],
    }
}

/// The texts of `s`, separated by commas.
pub open spec fn render_items(s: Seq<CanonicalTree>) -> Seq<char>
    decreases s,
{
    if s.len() == 0 {
        seq![]
    } else if s.len() == 1 {
        render(s[0])
    } else {
        render_items(s.subrange(0, s.len() - 1)) + seq![','] + render(s[s.len() - 1])
    }
}

/// The texts of the members `m`, separated by commas; each is the quoted key,
/// a colon and the value.
pub open spec fn render_members(m: Seq<(Seq<char>, CanonicalTree)>) -> Seq<char>
    decreases m,
{
    if m.len() == 0 {
        seq![]
    } else if m.len() == 1 {
        json_quoted(m[0].0) + seq![':'] + render(m[0].1)
    } else {
        render_members(m.subrange(0, m.len() - 1)) + seq![','] + json_quoted(m[m.len() - 1].0)
            + seq![':'] + render(m[m.len() - 1].1)
    }
}

impl CanonicalJsonValue {
    /// Appends the canonical text of this value to `buf`.
    pub fn write_canonical(&self, buf: &mut String)
        ensures
            final(buf)@ == old(buf)@ + render(self@),
        decreases self,
    {
        match self {
            CanonicalJsonValue::Null => append_str(buf, "null"),
            CanonicalJsonValue::Bool(b) => if *b {
                append_str(buf, "true")
            } else {
                append_str(buf, "false")
            },
            CanonicalJsonValue::Integer(n) => append_decimal(buf, *n),
            CanonicalJsonValue::String(s) => {
                let q = quote(s.as_str());
                append_str(buf, q.as_str());
            },
            CanonicalJsonValue::Array(a) => {
                let ghost at = self@->Array_0;
                let ghost start = buf@;
                append_char(buf, '[');
                let mut i: usize = 0;
                proof {
                    assert(at.subrange(0, 0) =~= Seq::<CanonicalTree>::empty());
                }
                while i < a.len()
                    invariant
                        *self == CanonicalJsonValue::Array(*a),
                        at == self@->Array_0,
                        at.len() == a@.len(),
                        i <= a@.len(),
                        buf@ == start.push('[') + render_items(at.subrange(0, i as int)),
                    decreases a@.len() - i,
                {
                    proof {
                        assert(decreases_to!(*self => (*self)->Array_0));
                        assert(decreases_to!(*a => a@));
                        assert(decreases_to!(a@ => a@[i as int]));
                    }
                    if i > 0 {
                        append_char(buf, ',');
                    }
                    a[i].write_canonical(buf);
                    proof {
                        let sub = at.subrange(0, i + 1);
                        assert(at[i as int] == a@[i as int]@);
                        assert(sub[i as int] == at[i as int]);
                        assert(sub.subrange(0, i as int) =~= at.subrange(0, i as int));
                        assert(buf@ =~= start.push('[') + render_items(sub));
                    }
                    i = i + 1;
                }
                append_char(buf, ']');
                proof {
                    assert(at.subrange(0, i as int) =~= at);
                    assert(buf@ =~= start + render(self@));
                }
            },
            CanonicalJsonValue::Object(m) => {
                let ghost mt = self@->Object_0;
                let ghost start = buf@;
                append_char(buf, '{');
                let mut i: usize = 0;
                proof {
                    assert(mt.subrange(0, 0) =~= Seq::<(Seq<char>, CanonicalTree)>::empty());
                }
                while i < m.len()
                    invariant
                        *self == CanonicalJsonValue::Object(*m),
                        mt == self@->Object_0,
                        mt.len() == m@.len(),
                        i <= m@.len(),
                        buf@ == start.push('{') + render_members(mt.subrange(0, i as int)),
                    decreases m@.len() - i,
                {
                    proof {
                        assert(decreases_to!(*self => (*self)->Object_0));
                        assert(decreases_to!(*m => m@));
                        assert(decreases_to!(m@ => m@[i as int]));
                        assert(decreases_to!(m@[i as int] => m@[i as int].1));
                    }
                    if i > 0 {
                        append_char(buf, ',');
                    }
                    let q = quote(m[i].0.as_str());
                    append_str(buf, q.as_str());
                    append_char(buf, ':');
                    m[i].1.write_canonical(buf);
                    proof {
                        let sub = mt.subrange(0, i + 1);
                        assert(mt[i as int] == (m@[i as int].0@, m@[i as int].1@));
                        assert(sub[i as int] == mt[i as int]);
                        assert(sub.subrange(0, i as int) =~= mt.subrange(0, i as int));
                        assert(buf@ =~= start.push('{') + render_members(sub));
                    }
                    i = i + 1;
                }
                append_char(buf, '}');
                proof {
                    assert(mt.subrange(0, i as int) =~= mt);
                    assert(buf@ =~= start + render(self@));
                }
            },
        }
    }

    /// The canonical text of this value.
    pub fn to_canonical_string(&self) -> (r: String)
        ensures
            r@ == render(self@),
    {
        let mut buf = String::new();
        self.write_canonical(&mut buf);
        proof {
            assert(buf@ =~= render(self@));
        }
        buf
    }
}

proof fn lemma_bytes_lt_trichotomy(a: Seq<u8>, b: Seq<u8>)
    ensures
        bytes_lt(a, b) || a == b || bytes_lt(b, a),
    decreases a.len(),
{
    if a.len() > 0 && b.len() > 0 && a[0] == b[0] {
        let ta = a.subrange(1, a.len() as int);
        let tb = b.subrange(1, b.len() as int);
        lemma_bytes_lt_trichotomy(ta, tb);
        if ta == tb {
            assert(a =~= seq![a[0]] + ta);
            assert(b =~= seq![b[0]] + tb);
        }
    } else if a.len() == 0 && b.len() == 0 {
        assert(a =~= b);
    }
}

proof fn lemma_bytes_lt_transitive(a: Seq<u8>, b: Seq<u8>, c: Seq<u8>)
    requires
        bytes_lt(a, b),
        bytes_lt(b, c),
    ensures
        bytes_lt(a, c),
    decreases a.len(),
{
    if a.len() > 0 && a[0] == b[0] && b[0] == c[0] {
        lemma_bytes_lt_transitive(
            a.subrange(1, a.len() as int),
            b.subrange(1, b.len() as int),
            c.subrange(1, c.len() as int),
        );
    }
}

proof fn lemma_insert_position_bounds(m: Seq<(Seq<char>, CanonicalTree)>, k: Seq<char>)
    ensures
        insert_position(m, k) <= m.len(),
        forall|j: int| 0 <= j < insert_position(m, k) ==> key_lt(#[trigger] m[j].0, k),
        insert_position(m, k) < m.len() ==> !key_lt(m[insert_position(m, k) as int].0, k),
    decreases m.len(),
{
    if m.len() > 0 && key_lt(m[0].0, k) {
        let t = m.subrange(1, m.len() as int);
        lemma_insert_position_bounds(t, k);
        assert forall|j: int| 0 <= j < insert_position(m, k) implies key_lt(#[trigger] m[j].0, k) by {
            if j > 0 {
                assert(m[j] == t[j - 1]);
            }
        }
        if insert_position(m, k) < m.len() {
            assert(m[insert_position(m, k) as int] == t[insert_position(t, k) as int]);
        }
    }
}

/// Putting a member into an object keeps its keys strictly ascending.
proof fn lemma_insert_keeps_order(m: Seq<(Seq<char>, CanonicalTree)>, k: Seq<char>, v: CanonicalTree)
    requires
        keys_ascending(m),
    ensures
        keys_ascending(insert_member_spec(m, k, v)),
{
    lemma_insert_position_bounds(m, k);
    let p = insert_position(m, k) as int;
    let r = insert_member_spec(m, k, v);
    if p < m.len() && key_bytes(m[p].0) == key_bytes(k) {
        assert forall|i: int, j: int| 0 <= i < j < r.len() implies key_lt(#[trigger] r[i].0, #[trigger] r[j].0) by {
            assert(key_lt(m[i].0, m[j].0));
        }
    } else {
        if p < m.len() {
            lemma_bytes_lt_trichotomy(key_bytes(m[p].0), key_bytes(k));
            assert forall|j: int| p < j < m.len() implies key_lt(k, #[trigger] m[j].0) by {
                assert(key_lt(m[p].0, m[j].0));
                lemma_bytes_lt_transitive(key_bytes(k), key_bytes(m[p].0), key_bytes(m[j].0));
            }
        }
        assert forall|i: int, j: int| 0 <= i < j < r.len() implies key_lt(#[trigger] r[i].0, #[trigger] r[j].0) by {
            if i < p && j < p {
                assert(key_lt(m[i].0, m[j].0));
            } else if i < p && j > p {
                assert(key_lt(m[i].0, m[j - 1].0));
            } else if i > p {
                assert(key_lt(m[i - 1].0, m[j - 1].0));
            } else if i == p && j == p + 1 {
                assert(r[j] == m[p]);
            }
        }
    }
}

/// Every value that conversion builds is canonical.
pub proof fn lemma_convert_is_canonical(j: JsonTree)
    ensures
        convert(j) is Ok ==> is_canonical(convert(j)->Ok_0),
    decreases j,
{
    match j {
        JsonTree::Array(s) => {
            lemma_convert_items_canonical(s);
            if convert_items(s) is Ok {
                lemma_items_canonical(convert_items(s)->Ok_0);
            }
        },
        JsonTree::Object(m) => {
            lemma_convert_members_canonical(seq![], m);
            if convert_members(seq![], m) is Ok {
                lemma_members_canonical(convert_members(seq![], m)->Ok_0);
            }
        },
        _ => {},
    }
}

proof fn lemma_convert_items_canonical(s: Seq<JsonTree>)
    ensures
        convert_items(s) is Ok ==> forall|i: int|
            0 <= i < convert_items(s)->Ok_0.len() ==> #[trigger] is_canonical(convert_items(s)->Ok_0[i]),
    decreases s,
{
    if s.len() > 0 {
        let rest = s.subrange(1, s.len() as int);
        lemma_convert_is_canonical(s[0]);
        lemma_convert_items_canonical(rest);
        if convert_items(s) is Ok {
            let t = convert_items(s)->Ok_0;
            assert forall|i: int| 0 <= i < t.len() implies #[trigger] is_canonical(t[i]) by {
                if i > 0 {
                    assert(t[i] == convert_items(rest)->Ok_0[i - 1]);
                }
            }
        }
    }
}

proof fn lemma_convert_members_canonical(
    acc: Seq<(Seq<char>, CanonicalTree)>,
    s: Seq<(Seq<char>, JsonTree)>,
)
    requires
        keys_ascending(acc),
        forall|i: int| 0 <= i < acc.len() ==> #[trigger] is_canonical(acc[i].1),
    ensures
        convert_members(acc, s) is Ok ==> {
            let t = convert_members(acc, s)->Ok_0;
            &&& keys_ascending(t)
            &&& forall|i: int| 0 <= i < t.len() ==> #[trigger] is_canonical(t[i].1)
        },
    decreases s,
{
    if s.len() > 0 {
        assert(decreases_to!(s => s[0]));
        lemma_convert_is_canonical(s[0].1);
        if convert(s[0].1) is Ok {
            let c = convert(s[0].1)->Ok_0;
            let next = insert_member_spec(acc, s[0].0, c);
            lemma_insert_keeps_order(acc, s[0].0, c);
            lemma_insert_position_bounds(acc, s[0].0);
            assert forall|i: int| 0 <= i < next.len() implies #[trigger] is_canonical(next[i].1) by {
                let p = insert_position(acc, s[0].0) as int;
                if i < p {
                    assert(next[i] == acc[i]);
                } else if i > p {
                    if p < acc.len() && key_bytes(acc[p].0) == key_bytes(s[0].0) {
                        assert(next[i] == acc[i]);
                    } else {
                        assert(next[i] == acc[i - 1]);
                    }
                }
            }
            lemma_convert_members_canonical(next, s.subrange(1, s.len() as int));
        }
    }
}

/// The generic JSON document that the canonical text of `c` denotes: what a
/// JSON decoder returns for that text.
pub open spec fn to_json(c: CanonicalTree) -> JsonTree
    decreases c,
{
    match c {
        CanonicalTree::Null => JsonTree::Null,
        CanonicalTree::Bool(b) => JsonTree::Bool(b),
        CanonicalTree::Integer(n) => JsonTree::Number(
            if n >= 0 {
                JsonNumber::PosInt(n as u64)
            } else {
                JsonNumber::NegInt(n as i64)
            },
        ),
        CanonicalTree::Str(s) => JsonTree::Str(s),
        CanonicalTree::Array(s) => JsonTree::Array(
            Seq::new(
                s.len(),
                |i: int|
                    if 0 <= i < s.len() {
                        to_json(s[i])
                    } else {
                        JsonTree::Null
                    },
            ),
        ),
        CanonicalTree::Object(m) => JsonTree::Object(
            Seq::new(
                m.len(),
                |i: int|
                    if 0 <= i < m.len() {
                        (m[i].0, to_json(m[i].1))
                    } else {
                        (Seq::empty(), JsonTree::Null)
                    },
            ),
        ),
    }
}

/// Converting the document that a canonical value's text denotes gives the
/// value back.
pub proof fn lemma_round_trip(c: CanonicalTree)
    requires
        is_canonical(c),
    ensures
        convert(to_json(c)) == Ok::<CanonicalTree, CanonicalJsonError>(c),
    decreases c,
{
    match c {
        CanonicalTree::Array(s) => {
            let js = to_json(c)->Array_0;
            lemma_items_canonical(s);
            lemma_items_round_trip(s, js);
        },
        CanonicalTree::Object(m) => {
            let jm = to_json(c)->Object_0;
            lemma_members_canonical(m);
            assert(seq![] + m =~= m);
            lemma_members_round_trip(seq![], m, jm);
            assert(seq![] + m =~= m);
        },
        _ => {},
    }
}

proof fn lemma_items_round_trip(s: Seq<CanonicalTree>, js: Seq<JsonTree>)
    requires
        forall|i: int| 0 <= i < s.len() ==> #[trigger] is_canonical(s[i]),
        js.len() == s.len(),
        forall|i: int| 0 <= i < s.len() ==> #[trigger] js[i] == to_json(s[i]),
    ensures
        convert_items(js) == Ok::<Seq<CanonicalTree>, CanonicalJsonError>(s),
    decreases s,
{
    if s.len() > 0 {
        let rest = s.subrange(1, s.len() as int);
        let jrest = js.subrange(1, js.len() as int);
        assert forall|i: int| 0 <= i < rest.len() implies #[trigger] jrest[i] == to_json(rest[i]) by {
            assert(jrest[i] == js[i + 1] && rest[i] == s[i + 1]);
        }
        lemma_round_trip(s[0]);
        lemma_items_round_trip(rest, jrest);
        assert(seq![s[0]] + rest =~= s);
    } else {
        assert(s =~= seq![]);
    }
}

proof fn lemma_members_round_trip(
    acc: Seq<(Seq<char>, CanonicalTree)>,
    m: Seq<(Seq<char>, CanonicalTree)>,
    jm: Seq<(Seq<char>, JsonTree)>,
)
    requires
        keys_ascending(acc + m),
        forall|i: int| 0 <= i < m.len() ==> #[trigger] is_canonical(m[i].1),
        jm.len() == m.len(),
        forall|i: int| 0 <= i < m.len() ==> #[trigger] jm[i] == (m[i].0, to_json(m[i].1)),
    ensures
        convert_members(acc, jm) == Ok::<Seq<(Seq<char>, CanonicalTree)>, CanonicalJsonError>(acc + m),
    decreases m,
{
    if m.len() > 0 {
        let k = m[0].0;
        let rest = m.subrange(1, m.len() as int);
        let jrest = jm.subrange(1, jm.len() as int);
        assert(decreases_to!(m => m[0]));
        lemma_round_trip(m[0].1);
        assert forall|j: int| 0 <= j < acc.len() implies key_lt(#[trigger] acc[j].0, k) by {
            assert((acc + m)[j] == acc[j] && (acc + m)[acc.len() as int] == m[0]);
        }
        lemma_insert_position(acc, k, acc.len() as int);
        let next = acc.push(m[0]);
        assert(insert_member_spec(acc, k, m[0].1) =~= next);
        assert(next + rest =~= acc + m);
        assert forall|i: int| 0 <= i < rest.len() implies #[trigger] jrest[i] == (rest[i].0, to_json(rest[i].1)) by {
            assert(jrest[i] == jm[i + 1] && rest[i] == m[i + 1]);
        }
        lemma_members_round_trip(next, rest, jrest);
    } else {
        assert(acc + m =~= acc);
    }
}

/// Round trip: for a value built by conversion, converting the document that
/// its canonical text denotes gives the same value back.
pub proof fn lemma_converted_round_trip(j: JsonTree)
    requires
        convert(j) is Ok,
    ensures
        convert(to_json(convert(j)->Ok_0)) == convert(j),
{
    lemma_convert_is_canonical(j);
    lemma_round_trip(convert(j)->Ok_0);
}

/// Rendering is idempotent: for a value built by conversion, converting the
/// document that its canonical text denotes and rendering again gives the
/// same text.
pub proof fn lemma_render_idempotent(j: JsonTree)
    requires
        convert(j) is Ok,
    ensures
        convert(to_json(convert(j)->Ok_0)) is Ok,
        render(convert(to_json(convert(j)->Ok_0))->Ok_0) == render(convert(j)->Ok_0),
{
    lemma_converted_round_trip(j);
}

} // verus!
