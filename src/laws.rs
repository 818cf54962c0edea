use vstd::prelude::*;
use crate::builder::{
    classify, initial, is_layout, numeral_end, parse_model, scan, step, string_close,
    Condition, ConditionKind, ScanState,
};
use crate::text::{is_whitespace, skip_whitespace, trim_end};
use crate::numeral::is_numeral_char;
use crate::value::{insert_entry, key_set, lookup, Entries, Json, Val};

verus! {

/// Text that a string may hold without ending or escaping: no quote, no backslash.
pub open spec fn plain_text(t: Seq<char>) -> bool {
    forall|i: int| 0 <= i < t.len() ==> #[trigger] t[i] != '"' && t[i] != '\\'
}

/// A quoted string with plain text inside.
pub open spec fn is_string_literal(v: Seq<char>) -> bool {
    &&& v.len() >= 2
    &&& v[0] == '"'
    &&& v[v.len() - 1] == '"'
    &&& plain_text(v.subrange(1, v.len() - 1))
}

/// One numeral token: a first character that starts no other token, then
/// numeral characters only.
pub open spec fn is_numeral_literal(v: Seq<char>) -> bool {
    &&& v.len() >= 1
    &&& !is_layout(v[0])
    &&& v[0] != '"' && v[0] != '{' && v[0] != '[' && v[0] != '}' && v[0] != ']'
    &&& forall|i: int| 1 <= i < v.len() ==> is_numeral_char(#[trigger] v[i])
}

pub open spec fn is_scalar_literal(v: Seq<char>) -> bool {
    is_string_literal(v) || is_numeral_literal(v)
}

/// The value a scalar literal stands for.
pub open spec fn scalar_model(v: Seq<char>) -> Val {
    if is_string_literal(v) {
        Val::Text(v.subrange(1, v.len() - 1))
    } else {
        match classify(v) {
            Some(x) => x,
            None => Val::Nothing,
        }
    }
}

/// `"k":v`
pub open spec fn member_text(k: Seq<char>, v: Seq<char>) -> Seq<char> {
    seq!['"'] + k + seq!['"', ':'] + v
}

/// The members of a flat object, separated by commas.
pub open spec fn members_text(es: Seq<(Seq<char>, Seq<char>)>) -> Seq<char>
    decreases es.len(),
{
    if es.len() == 0 {
        Seq::empty()
    } else if es.len() == 1 {
        member_text(es[0].0, es[0].1)
    } else {
        member_text(es[0].0, es[0].1) + seq![','] + members_text(es.drop_first())
    }
}

/// A flat object: `{"k0":v0,"k1":v1,...}` with scalar values.
pub open spec fn flat_object_text(es: Seq<(Seq<char>, Seq<char>)>) -> Seq<char> {
    seq!['{'] + members_text(es) + seq!['}']
}

pub open spec fn valid_members(es: Seq<(Seq<char>, Seq<char>)>) -> bool {
    forall|i: int| 0 <= i < es.len() ==> plain_text(#[trigger] es[i].0) && is_scalar_literal(es[i].1)
}

pub open spec fn member_keys(es: Seq<(Seq<char>, Seq<char>)>) -> Set<Seq<char>> {
    Set::new(|k: Seq<char>| exists|i: int| 0 <= i < es.len() && #[trigger] es[i].0 == k)
}

/// Scalars separated by commas.
pub open spec fn elements_text(vs: Seq<Seq<char>>) -> Seq<char>
    decreases vs.len(),
{
    if vs.len() == 0 {
        Seq::empty()
    } else if vs.len() == 1 {
        vs[0]
    } else {
        vs[0] + seq![','] + elements_text(vs.drop_first())
    }
}

/// An object with one array of scalars: `{"k":[v0,v1,...]}`.
pub open spec fn array_object_text(k: Seq<char>, vs: Seq<Seq<char>>) -> Seq<char> {
    seq!['{', '"'] + k + seq!['"', ':', '['] + elements_text(vs) + seq![']', '}']
}

proof fn lemma_split(s: Seq<char>, p: int, a: Seq<char>, b: Seq<char>)
    requires
        0 <= p,
        p + a.len() + b.len() <= s.len(),
        s.subrange(p, p + a.len() + b.len()) == a + b,
    ensures
        s.subrange(p, p + a.len()) == a,
        s.subrange(p + a.len(), p + a.len() + b.len()) == b,
{
    assert forall|x: int| 0 <= x < a.len() implies s.subrange(p, p + a.len())[x] == a[x] by {
        assert(s[p + x] == (a + b)[x]);
    }
    assert forall|x: int| 0 <= x < b.len() implies s.subrange(
        p + a.len(),
        p + a.len() + b.len(),
    )[x] == b[x] by {
        assert(s[p + a.len() + x] == (a + b)[a.len() + x]);
    }
    assert(s.subrange(p, p + a.len()) =~= a);
    assert(s.subrange(p + a.len(), p + a.len() + b.len()) =~= b);
}

proof fn lemma_at(s: Seq<char>, p: int, t: Seq<char>, x: int)
    requires
        0 <= p,
        p + t.len() <= s.len(),
        s.subrange(p, p + t.len()) == t,
        0 <= x < t.len(),
    ensures
        s[p + x] == t[x],
{
    assert(s.subrange(p, p + t.len())[x] == s[p + x]);
}

proof fn lemma_plain_close(s: Seq<char>, j: int, t: Seq<char>, end: int)
    requires
        0 <= j,
        j + t.len() < end <= s.len(),
        s.subrange(j, j + t.len()) == t,
        plain_text(t),
        s[j + t.len()] == '"',
    ensures
        string_close(s, j, end) == j + t.len(),
    decreases t.len(),
{
    if t.len() > 0 {
        lemma_at(s, j, t, 0);
        let r = t.drop_first();
        assert(s.subrange(j + 1, j + 1 + r.len()) =~= r) by {
            assert forall|x: int| 0 <= x < r.len() implies s.subrange(j + 1, j + 1 + r.len())[x]
                == r[x] by {
                lemma_at(s, j, t, x + 1);
            }
        }
        assert(plain_text(r)) by {
            assert forall|i: int| 0 <= i < r.len() implies #[trigger] r[i] != '"' && r[i] != '\\' by {
                assert(r[i] == t[i + 1]);
            }
        }
        lemma_plain_close(s, j + 1, r, end);
    }
}

proof fn lemma_numeral_run(s: Seq<char>, j: int, n: int, end: int)
    requires
        0 <= j,
        0 <= n,
        j + n <= end <= s.len(),
        forall|x: int| j <= x < j + n ==> is_numeral_char(#[trigger] s[x]),
        j + n == end || !is_numeral_char(s[j + n]),
    ensures
        numeral_end(s, j, end) == j + n,
    decreases n,
{
    if n > 0 {
        lemma_numeral_run(s, j + 1, n - 1, end);
    }
}

/// The effect of one scalar token on a scan that expects a value: the scan
/// moves past it, and its value is filed (conditions aside).
proof fn lemma_scalar_step(s: Seq<char>, q: int, end: int, v: Seq<char>, st: ScanState)
    requires
        0 <= q,
        q + v.len() < end <= s.len(),
        s.subrange(q, q + v.len()) == v,
        is_scalar_literal(v),
        !is_numeral_char(s[q + v.len()]),
        st.pending is Some || st.in_array(),
    ensures
        step(s, q, end, st).0 == q + v.len(),
        step(s, q, end, st).1.stack == st.file_value(scalar_model(v), q as usize).stack,
        step(s, q, end, st).1.tags == st.tags,
        step(s, q, end, st).1.pending is None,
        step(s, q, end, st).1.root_closed == st.root_closed,
{
    lemma_at(s, q, v, 0);
    if is_string_literal(v) {
        let t = v.subrange(1, v.len() - 1);
        assert(s.subrange(q + 1, q + 1 + t.len()) =~= t) by {
            assert forall|x: int| 0 <= x < t.len() implies s.subrange(q + 1, q + 1 + t.len())[x]
                == t[x] by {
                lemma_at(s, q, v, x + 1);
            }
        }
        lemma_at(s, q, v, v.len() - 1);
        lemma_plain_close(s, q + 1, t, end);
        assert(s.subrange(q + 1, q + v.len() - 1) == t);
    } else {
        assert forall|x: int| q + 1 <= x < q + 1 + (v.len() - 1) implies is_numeral_char(
            #[trigger] s[x],
        ) by {
            lemma_at(s, q, v, x - q);
        }
        lemma_numeral_run(s, q + 1, v.len() - 1, end);
        assert(s.subrange(q, q + v.len()) == v);
    }
}

proof fn lemma_key_set_insert(es: Entries, k: Seq<char>, v: Val)
    ensures
        key_set(insert_entry(es, k, v)) == key_set(es).insert(k),
{
    crate::value::lemma_find_key(es, k, 0);
    let r = insert_entry(es, k, v);
    assert forall|x: Seq<char>| key_set(r).contains(x) <==> key_set(es).insert(k).contains(x) by {
        if key_set(es).insert(k).contains(x) {
            if x == k {
                if crate::value::find_key(es, k, 0) >= 0 {
                    assert(r[crate::value::find_key(es, k, 0)].0 == x);
                } else {
                    assert(r[es.len() as int].0 == x);
                }
            } else {
                let i = choose|i: int| 0 <= i < es.len() && es[i].0 == x;
                assert(r[i].0 == x);
            }
        }
        if key_set(r).contains(x) {
            let i = choose|i: int| 0 <= i < r.len() && r[i].0 == x;
            if x != k {
                assert(es[i].0 == x);
            }
        }
    }
    assert(key_set(r) =~= key_set(es).insert(k));
}

/// The last character, a closing brace at the root, leaves the stack as it is.
proof fn lemma_close_root(s: Seq<char>, at: int, end: int, st: ScanState)
    requires
        0 <= at,
        at + 1 == end,
        end <= s.len(),
        s[at] == '}',
        st.stack.len() == 1,
    ensures
        scan(s, at, end, st).stack == st.stack,
{
    let st3 = step(s, at, end, st).1;
    assert(step(s, at, end, st).0 == end);
    assert(scan(s, end, end, st3) == st3);
}

/// The state after a member `"k":v` scanned from `st`.
pub open spec fn after_member(s: Seq<char>, p: int, end: int, k: Seq<char>, st: ScanState) -> ScanState {
    step(s, p + 3 + k.len(), end, st.on_text(k, p as usize)).1
}

proof fn lemma_member(s: Seq<char>, p: int, end: int, k: Seq<char>, v: Seq<char>, st: ScanState)
    requires
        st.wf(),
        st.stack.len() == 1,
        st.pending is None,
        0 <= p,
        p + member_text(k, v).len() < end <= s.len(),
        s.subrange(p, p + member_text(k, v).len()) == member_text(k, v),
        !is_numeral_char(s[p + member_text(k, v).len()]),
        plain_text(k),
        is_scalar_literal(v),
    ensures
        scan(s, p, end, st) == scan(s, p + member_text(k, v).len(), end, after_member(s, p, end, k, st)),
        after_member(s, p, end, k, st).stack == seq![
            Val::Object(insert_entry(st.stack[0]->Object_0, k, scalar_model(v))),
        ],
        after_member(s, p, end, k, st).pending is None,
        after_member(s, p, end, k, st).wf(),
{
    let m = member_text(k, v);
    lemma_split(s, p, seq!['"'] + k + seq!['"', ':'], v);
    lemma_split(s, p, seq!['"'] + k, seq!['"', ':']);
    lemma_split(s, p, seq!['"'], k);
    lemma_at(s, p, seq!['"'], 0);
    lemma_at(s, p + 1 + k.len(), seq!['"', ':'], 0);
    lemma_at(s, p + 1 + k.len(), seq!['"', ':'], 1);
    lemma_plain_close(s, p + 1, k, end);
    let st1 = st.on_text(k, p as usize);
    assert(step(s, p, end, st).0 == p + 2 + k.len());
    assert(step(s, p, end, st).1 == st1);
    assert(is_layout(s[p + 2 + k.len()]));
    let q = p + 3 + k.len();
    assert(scan(s, p + 2 + k.len(), end, st1) == scan(s, q, end, st1));
    lemma_scalar_step(s, q, end, v, st1);
    assert(st1.file_value(scalar_model(v), q as usize).stack =~= seq![
        Val::Object(insert_entry(st.stack[0]->Object_0, k, scalar_model(v))),
    ]);
}

/// Scanning the members of a flat object, then its closing brace, into a
/// root that waits for a key adds exactly the members' keys to the root.
proof fn lemma_members(s: Seq<char>, p: int, end: int, es: Seq<(Seq<char>, Seq<char>)>, st: ScanState)
    requires
        st.wf(),
        st.stack.len() == 1,
        st.pending is None,
        0 <= p,
        end == p + members_text(es).len() + 1,
        end <= s.len(),
        s.subrange(p, p + members_text(es).len()) == members_text(es),
        s[end - 1] == '}',
        valid_members(es),
    ensures
        scan(s, p, end, st).stack.len() == 1,
        scan(s, p, end, st).stack[0] is Object,
        key_set(scan(s, p, end, st).stack[0]->Object_0) == key_set(st.stack[0]->Object_0).union(
            member_keys(es),
        ),
    decreases es.len(),
{
    let root = st.stack[0]->Object_0;
    if es.len() == 0 {
        lemma_close_root(s, p, end, st);
        assert(member_keys(es) =~= Set::empty());
        assert(key_set(root).union(member_keys(es)) =~= key_set(root));
    } else {
        let k = es[0].0;
        let v = es[0].1;
        let m = member_text(k, v);
        let rest = es.drop_first();
        assert(plain_text(k) && is_scalar_literal(v));
        if es.len() == 1 {
            assert(members_text(es) == m);
        } else {
            assert(members_text(es) == m + seq![','] + members_text(rest));
            lemma_split(s, p, m + seq![','], members_text(rest));
            lemma_split(s, p, m, seq![',']);
            lemma_at(s, p + m.len(), seq![','], 0);
        }
        lemma_member(s, p, end, k, v, st);
        let st2 = after_member(s, p, end, k, st);
        let after = p + m.len();
        lemma_key_set_insert(root, k, scalar_model(v));
        if es.len() == 1 {
            lemma_close_root(s, after, end, st2);
            assert(member_keys(es) =~= set![k]);
            assert(key_set(root).insert(k) =~= key_set(root).union(member_keys(es)));
        } else {
            let next_at = after + 1;
            assert(scan(s, after, end, st2) == scan(s, next_at, end, st2));
            assert(valid_members(rest)) by {
                assert forall|i: int| 0 <= i < rest.len() implies plain_text(#[trigger] rest[i].0)
                    && is_scalar_literal(rest[i].1) by {
                    assert(rest[i] == es[i + 1]);
                }
            }
            lemma_members(s, next_at, end, rest, st2);
            assert(member_keys(es) =~= member_keys(rest).insert(k)) by {
                assert forall|x: Seq<char>| member_keys(es).contains(x) implies member_keys(
                    rest,
                ).insert(k).contains(x) by {
                    let i = choose|i: int| 0 <= i < es.len() && #[trigger] es[i].0 == x;
                    if i > 0 {
                        assert(rest[i - 1].0 == x);
                    }
                }
                assert forall|x: Seq<char>| member_keys(rest).insert(k).contains(x) implies member_keys(
                    es,
                ).contains(x) by {
                    if x != k {
                        let i = choose|i: int| 0 <= i < rest.len() && #[trigger] rest[i].0 == x;
                        assert(es[i + 1].0 == x);
                    } else {
                        assert(es[0].0 == x);
                    }
                }
            }
            assert(key_set(root).insert(k).union(member_keys(rest)) =~= key_set(root).union(
                member_keys(es),
            ));
        }
    }
}

pub open spec fn scalar_models(vs: Seq<Seq<char>>) -> Seq<Val> {
    vs.map_values(|v: Seq<char>| scalar_model(v))
}

pub open spec fn valid_elements(vs: Seq<Seq<char>>) -> bool {
    forall|i: int| 0 <= i < vs.len() ==> is_scalar_literal(#[trigger] vs[i])
}

/// Scanning the rest of an array of scalars, its closing bracket and the
/// root's closing brace files the array, its elements in order, under its key.
proof fn lemma_elements(s: Seq<char>, p: int, end: int, vs: Seq<Seq<char>>, st: ScanState)
    requires
        st.wf(),
        st.stack.len() == 2,
        st.stack[1] is Array,
        st.tags.len() >= 1,
        st.pending is None,
        0 <= p,
        end == p + elements_text(vs).len() + 2,
        end <= s.len(),
        s.subrange(p, p + elements_text(vs).len()) == elements_text(vs),
        s[end - 2] == ']',
        s[end - 1] == '}',
        valid_elements(vs),
    ensures
        scan(s, p, end, st).stack == seq![
            Val::Object(
                insert_entry(
                    st.stack[0]->Object_0,
                    st.tags.last(),
                    Val::Array(st.stack[1]->Array_0 + scalar_models(vs)),
                ),
            ),
        ],
    decreases vs.len(),
{
    let acc = st.stack[1]->Array_0;
    if vs.len() == 0 {
        let st1 = step(s, p, end, st).1;
        assert(step(s, p, end, st).0 == p + 1);
        assert(st1.stack =~= seq![
            Val::Object(insert_entry(st.stack[0]->Object_0, st.tags.last(), Val::Array(acc))),
        ]);
        lemma_close_root(s, p + 1, end, st1);
        assert(acc + scalar_models(vs) =~= acc);
    } else {
        let v = vs[0];
        let rest = vs.drop_first();
        let after = p + v.len();
        assert(is_scalar_literal(v));
        if vs.len() == 1 {
            assert(elements_text(vs) == v);
            assert(elements_text(rest) == Seq::<char>::empty());
        } else {
            assert(elements_text(vs) == v + seq![','] + elements_text(rest));
            lemma_split(s, p, v + seq![','], elements_text(rest));
            lemma_split(s, p, v, seq![',']);
            lemma_at(s, after, seq![','], 0);
        }
        lemma_scalar_step(s, p, end, v, st);
        let st2 = step(s, p, end, st).1;
        assert(st2.stack =~= st.stack.update(1, Val::Array(acc.push(scalar_model(v)))));
        assert(st2.wf());
        assert(scan(s, p, end, st) == scan(s, after, end, st2));
        let next_at = if vs.len() == 1 {
            after
        } else {
            assert(is_layout(s[after]));
            assert(scan(s, after, end, st2) == scan(s, after + 1, end, st2));
            after + 1
        };
        assert(s.subrange(next_at, next_at + elements_text(rest).len()) =~= elements_text(rest));
        assert(valid_elements(rest)) by {
            assert forall|i: int| 0 <= i < rest.len() implies is_scalar_literal(#[trigger] rest[i]) by {
                assert(rest[i] == vs[i + 1]);
            }
        }
        lemma_elements(s, next_at, end, rest, st2);
        assert(acc.push(scalar_model(v)) + scalar_models(rest) =~= acc + scalar_models(vs));
    }
}

/// An object with one array of scalars, `{"k":[v0,v1,...]}`, parses to a
/// root with the one key `k`, whose value is the array of the values the
/// literals stand for, in source order.
pub proof fn array_keeps_order(k: Seq<char>, vs: Seq<Seq<char>>)
    requires
        plain_text(k),
        valid_elements(vs),
    ensures
        parse_model(array_object_text(k, vs)).0 == seq![(k, Val::Array(scalar_models(vs)))],
{
    let s = array_object_text(k, vs);
    let end = s.len() as int;
    let kl = k.len() as int;
    lemma_array_text(k, vs);
    assert(skip_whitespace(s, 0) == 0);
    assert(trim_end(s, end) == end);
    let st0 = initial(Seq::empty());
    lemma_plain_close(s, 2, k, end);
    let st1 = st0.on_text(k, 1);
    assert(step(s, 1, end, st0).0 == 3 + kl);
    assert(scan(s, 1, end, st0) == scan(s, 3 + kl, end, st1));
    assert(scan(s, 3 + kl, end, st1) == scan(s, 4 + kl, end, st1));
    let st2 = st1.open(false, (4 + kl) as usize);
    assert(scan(s, 4 + kl, end, st1) == scan(s, 5 + kl, end, st2));
    assert(st2.stack[1]->Array_0 =~= Seq::<Val>::empty());
    lemma_elements(s, 5 + kl, end, vs, st2);
    assert(Seq::<Val>::empty() + scalar_models(vs) =~= scalar_models(vs));
    crate::value::lemma_find_key(Seq::<(Seq<char>, Val)>::empty(), k, 0);
    assert(insert_entry(Seq::empty(), k, Val::Array(scalar_models(vs))) =~= seq![
        (k, Val::Array(scalar_models(vs))),
    ]);
}

proof fn lemma_array_text(k: Seq<char>, vs: Seq<Seq<char>>)
    ensures
        ({
            let s = array_object_text(k, vs);
            let kl = k.len() as int;
            let el = elements_text(vs);
            &&& s.len() == kl + el.len() + 7
            &&& s[0] == '{' && !is_whitespace(s[0])
            &&& s[1] == '"'
            &&& s.subrange(2, 2 + kl) == k
            &&& s[2 + kl] == '"'
            &&& s[3 + kl] == ':'
            &&& s[4 + kl] == '['
            &&& s.subrange(5 + kl, 5 + kl + el.len()) == el
            &&& s[s.len() - 2] == ']'
            &&& s[s.len() - 1] == '}' && !is_whitespace(s[s.len() - 1])
        }),
{
    let el = elements_text(vs);
    let a = seq!['{', '"'];
    let b = seq!['"', ':', '['];
    let c = seq![']', '}'];
    let s = array_object_text(k, vs);
    let end = s.len() as int;
    assert(s == a + k + b + el + c);
    assert(s.subrange(0, end) =~= s);
    lemma_split(s, 0, a + k + b + el, c);
    lemma_split(s, 0, a + k + b, el);
    lemma_split(s, 0, a + k, b);
    lemma_split(s, 0, a, k);
    lemma_at(s, 0, a, 0);
    lemma_at(s, 0, a, 1);
    let kl = k.len() as int;
    lemma_at(s, 2 + kl, b, 0);
    lemma_at(s, 2 + kl, b, 1);
    lemma_at(s, 2 + kl, b, 2);
    lemma_at(s, 5 + kl + el.len(), c, 0);
    lemma_at(s, 5 + kl + el.len(), c, 1);
}

/// A flat object `{"k0":v0,...}`, whose values are scalars, parses to a
/// root whose key set is exactly the set of keys written in it.
pub proof fn flat_object_keys(es: Seq<(Seq<char>, Seq<char>)>)
    requires
        valid_members(es),
    ensures
        key_set(parse_model(flat_object_text(es)).0) == member_keys(es),
{
    let m = members_text(es);
    let s = flat_object_text(es);
    let end = s.len() as int;
    assert(s.subrange(0, end) =~= s);
    lemma_split(s, 0, seq!['{'] + m, seq!['}']);
    lemma_split(s, 0, seq!['{'], m);
    lemma_at(s, 0, seq!['{'], 0);
    lemma_at(s, 1 + m.len() as int, seq!['}'], 0);
    assert(!is_whitespace(s[0]));
    assert(skip_whitespace(s, 0) == 0);
    assert(!is_whitespace(s[end - 1]));
    assert(trim_end(s, end) == end);
    let st0 = initial(Seq::empty());
    lemma_members(s, 1, end, es, st0);
    assert(key_set(Seq::<(Seq<char>, Val)>::empty()) =~= Set::empty());
    assert(Set::<Seq<char>>::empty().union(member_keys(es)) =~= member_keys(es));
}

proof fn lemma_trim_end_bound(s: Seq<char>, j: int)
    ensures
        trim_end(s, j) <= j,
    decreases j,
{
    if 0 < j <= s.len() && is_whitespace(s[j - 1]) {
        lemma_trim_end_bound(s, j - 1);
    }
}

/// Text that, once trimmed, is empty or does not begin with `{` parses to
/// an empty root, with the one condition that the input is not an object.
pub proof fn not_an_object(s: Seq<char>)
    requires
        skip_whitespace(s, 0) >= s.len() || s[skip_whitespace(s, 0)] != '{',
    ensures
        parse_model(s).0.len() == 0,
        parse_model(s).1 == seq![
            Condition {
                kind: ConditionKind::InputNotAnObject,
                position: skip_whitespace(s, 0) as usize,
            },
        ],
{
    lemma_trim_end_bound(s, s.len() as int);
}

/// Looking the same key up twice in a document gives the same answer both
/// times: a lookup depends on the document and the key alone.
pub proof fn lookup_is_stable<'a>(d: Json<'a>, k1: Seq<char>, k2: Seq<char>)
    requires
        k1 == k2,
    ensures
        lookup(d.model(), k1) == lookup(d.model(), k2),
{
}

} // verus!
