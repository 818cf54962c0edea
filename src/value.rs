use vstd::prelude::*;

verus! {

broadcast use vstd::std_specs::vec::axiom_vec_index_decreases;

/// A parsed JSON value. Every piece of text in it is a slice of the
/// buffer that was parsed: nothing is copied out of the source.
#[derive(Debug)]
pub enum JsonValue<'a> {
    /// Explicit "no value", recorded where a numeral could not be read.
    Nothing,
    /// The text between two quotes, as it stands in the source.
    StringRef(&'a str),
    /// A numeral that reads as a signed 64-bit integer.
    Integer(i64),
    /// A numeral with a fractional part (or too large for an integer),
    /// kept as its source text.
    Double(&'a str),
    /// A nested object.
    Object(Box<Json<'a>>),
    /// An array, its elements in source order.
    Array(Vec<JsonValue<'a>>),
}

/// A JSON object: keys unique, entries in order of first insertion.
#[derive(Debug)]
pub struct Json<'a> {
    pub fields: Vec<(&'a str, JsonValue<'a>)>,
}

/// The mathematical value of a `JsonValue`.
pub enum Val {
    Nothing,
    Text(Seq<char>),
    Integer(int),
    Real(Seq<char>),
    Object(Seq<(Seq<char>, Val)>),
    Array(Seq<Val>),
}

/// The entries of an object model, in order.
pub type Entries = Seq<(Seq<char>, Val)>;

impl<'a> JsonValue<'a> {
    pub open spec fn model(self) -> Val
        decreases self,
    {
        match self {
            JsonValue::Nothing => Val::Nothing,
            JsonValue::StringRef(s) => Val::Text(s@),
            JsonValue::Integer(n) => Val::Integer(n as int),
            JsonValue::Double(s) => Val::Real(s@),
            JsonValue::Object(b) => Val::Object(
                Seq::new(
                    b.fields.len() as nat,
                    |i: int|
                        if 0 <= i < b.fields.len() {
                            (b.fields[i].0@, b.fields[i].1.model())
                        } else {
                            (Seq::empty(), Val::Nothing)
                        },
                ),
            ),
            JsonValue::Array(v) => Val::Array(
                Seq::new(
                    v.len() as nat,
                    |i: int|
                        if 0 <= i < v.len() {
                            v[i].model()
                        } else {
                            Val::Nothing
                        },
                ),
            ),
        }
    }
}

impl<'a> Json<'a> {
    pub open spec fn model(self) -> Entries {
        Seq::new(self.fields.len() as nat, |i: int| (self.fields[i].0@, self.fields[i].1.model()))
    }
}

/// The first index at or after `from` whose key is `k`, or -1.
pub open spec fn find_key(es: Entries, k: Seq<char>, from: int) -> int
    decreases es.len() - from,
{
    if from < 0 || from >= es.len() {
        -1
    } else if es[from].0 == k {
        from
    } else {
        find_key(es, k, from + 1)
    }
}

/// What an object model holds under `k`.
pub open spec fn lookup(es: Entries, k: Seq<char>) -> Option<Val> {
    let i = find_key(es, k, 0);
    if i >= 0 {
        Some(es[i].1)
    } else {
        None
    }
}

/// The set of keys of an object model.
pub open spec fn key_set(es: Entries) -> Set<Seq<char>> {
    Set::new(|k: Seq<char>| exists|i: int| 0 <= i < es.len() && es[i].0 == k)
}

/// No key occurs twice.
pub open spec fn keys_unique(es: Entries) -> bool {
    forall|i: int, j: int| 0 <= i < es.len() && 0 <= j < es.len() && i != j ==> es[i].0 != es[j].0
}

/// Every object in `v`, at any depth, has unique keys.
pub open spec fn val_wf(v: Val) -> bool
    decreases v,
{
    match v {
        Val::Object(es) => keys_unique(es) && forall|i: int|
            0 <= i < es.len() ==> val_wf(#[trigger] es[i].1),
        Val::Array(xs) => forall|i: int| 0 <= i < xs.len() ==> val_wf(#[trigger] xs[i]),
        _ => true,
    }
}

/// Every object in an object model, at any depth, has unique keys.
pub open spec fn entries_wf(es: Entries) -> bool {
    val_wf(Val::Object(es))
}

/// Files `v` under `k`: a later value replaces an earlier one in place,
/// a new key goes to the end.
pub open spec fn insert_entry(es: Entries, k: Seq<char>, v: Val) -> Entries {
    let i = find_key(es, k, 0);
    if i >= 0 {
        es.update(i, (k, v))
    } else {
        es.push((k, v))
    }
}

pub proof fn lemma_insert_entry_wf(es: Entries, k: Seq<char>, v: Val)
    requires
        entries_wf(es),
        val_wf(v),
    ensures
        entries_wf(insert_entry(es, k, v)),
{
    lemma_find_key(es, k, 0);
    let r = insert_entry(es, k, v);
    assert forall|i: int| 0 <= i < r.len() implies val_wf(#[trigger] r[i].1) by {
        if i < es.len() && r[i] == es[i] {
            assert(val_wf(es[i].1));
        }
    }
    assert(keys_unique(r));
}

pub proof fn lemma_find_key(es: Entries, k: Seq<char>, from: int)
    requires
        0 <= from,
    ensures
        find_key(es, k, from) == -1 || (from <= find_key(es, k, from) < es.len()
            && es[find_key(es, k, from)].0 == k),
        find_key(es, k, from) == -1 ==> forall|j: int| from <= j < es.len() ==> es[j].0 != k,
        find_key(es, k, from) >= 0 ==> forall|j: int|
            from <= j < find_key(es, k, from) ==> es[j].0 != k,
    decreases es.len() - from,
{
    if from < es.len() && es[from].0 != k {
        lemma_find_key(es, k, from + 1);
    }
}

impl<'a> Json<'a> {
    /// An empty object.
    pub fn new() -> (r: Json<'a>)
        ensures
            r.model() == Seq::<(Seq<char>, Val)>::empty(),
    {
        Json { fields: Vec::new() }
    }

    /// The value filed under `key`, if any.
    pub fn get(&self, key: &str) -> (r: Option<&JsonValue<'a>>)
        ensures
            match r {
                Some(v) => lookup(self.model(), key@) == Some(v.model()),
                None => lookup(self.model(), key@) is None,
            },
    {
        let mut i: usize = 0;
        while i < self.fields.len()
            invariant
                i <= self.fields.len(),
                find_key(self.model(), key@, 0) == find_key(self.model(), key@, i as int),
            decreases self.fields.len() - i,
        {
            if str_eq(self.fields[i].0, key) {
                return Some(&self.fields[i].1);
            }
            i = i + 1;
        }
        None
    }

    /// Files `v` under `k`, replacing the value of an existing key.
    pub fn insert(&mut self, k: &'a str, v: JsonValue<'a>)
        ensures
            final(self).model() == insert_entry(old(self).model(), k@, v.model()),
    {
        let ghost es = self.model();
        let mut i: usize = 0;
        while i < self.fields.len()
            invariant
                i <= self.fields.len(),
                es == self.model(),
                es == old(self).model(),
                find_key(es, k@, 0) == find_key(es, k@, i as int),
            decreases self.fields.len() - i,
        {
            if str_eq(self.fields[i].0, k) {
                let ghost m = v.model();
                assert(es[i as int].0 == k@);
                assert(find_key(es, k@, i as int) == i);
                self.fields.set(i, (k, v));
                assert(self.model() =~= es.update(i as int, (k@, m)));
                return;
            }
            i = i + 1;
        }
        let ghost m = v.model();
        self.fields.push((k, v));
        assert(self.model() =~= es.push((k@, m)));
    }

    /// Number of entries.
    pub fn len(&self) -> (r: usize)
        ensures
            r == self.model().len(),
    {
        self.fields.len()
    }
}

/// Character-wise equality of two string slices.
pub fn str_eq(a: &str, b: &str) -> (r: bool)
    ensures
        r == (a@ == b@),
{
    let ac = crate::text::chars_of(a);
    let bc = crate::text::chars_of(b);
    if ac.len() != bc.len() {
        return false;
    }
    let mut i: usize = 0;
    while i < ac.len()
        invariant
            ac@ == a@,
            bc@ == b@,
            ac.len() == bc.len(),
            i <= ac.len(),
            forall|j: int| 0 <= j < i ==> ac@[j] == bc@[j],
        decreases ac.len() - i,
    {
        if ac[i] != bc[i] {
            return false;
        }
        i = i + 1;
    }
    assert(ac@ =~= bc@);
    true
}

} // verus!
