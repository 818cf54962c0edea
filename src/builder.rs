use vstd::prelude::*;
use crate::numeral::{
    fits_i64, integer_of, integer_value, is_numeral_char, is_real_numeral, is_real_value,
};
use crate::text::{chars_of, find_char, position_of, skip_whitespace, trim_bounds, trim_end};
use crate::value::{
    entries_wf, insert_entry, lemma_insert_entry_wf, val_wf, Entries, Json, JsonValue, Val,
};

verus! {

/// A structural problem found in the input; the scan records it and goes on.
#[derive(Clone, Copy, Debug, PartialEq, Eq, Structural)]
pub enum ConditionKind {
    /// The text, once trimmed, does not begin with `{`.
    InputNotAnObject,
    /// A quote opened a string that no later quote closes.
    UnterminatedString,
    /// A numeral that is neither an integer nor a real number.
    InvalidNumeral,
    /// `{` or `[` with no pending key and not inside an array.
    UnexpectedContainerOpen,
    /// A value meant for an object arrived without a key.
    MissingKeyForValue,
    /// A closed container had no key to be filed under in its parent object.
    MissingKeyForContainer,
    /// Containers left open at the end, or a closing delimiter with none open.
    UnbalancedContainers,
}

/// A condition and the character position at which it was found.
#[derive(Clone, Copy, Debug, PartialEq, Eq, Structural)]
pub struct Condition {
    pub kind: ConditionKind,
    pub position: usize,
}

/// The state of a scan, in mathematical terms.
pub struct ScanState {
    /// Containers being built; the root object at the bottom.
    pub stack: Seq<Val>,
    /// Keys under which open containers will be filed in their parents.
    pub tags: Seq<Seq<char>>,
    /// A key read and not yet used.
    pub pending: Option<Seq<char>>,
    /// Whether the root's own closing delimiter has been seen.
    pub root_closed: bool,
    /// Conditions recorded so far, in order.
    pub conds: Seq<Condition>,
}

pub open spec fn is_container(v: Val) -> bool {
    v is Object || v is Array
}

impl ScanState {
    pub open spec fn wf(self) -> bool {
        &&& self.stack.len() >= 1
        &&& self.stack[0] is Object
        &&& forall|i: int| 0 <= i < self.stack.len() ==> is_container(#[trigger] self.stack[i])
    }

    pub open spec fn in_array(self) -> bool {
        self.stack.last() is Array
    }

    pub open spec fn record(self, kind: ConditionKind, pos: usize) -> ScanState {
        ScanState { conds: self.conds.push(Condition { kind, position: pos }), ..self }
    }

    /// Files a value into the container on top of the stack.
    pub open spec fn file_value(self, v: Val, pos: usize) -> ScanState {
        let top = self.stack.len() - 1;
        let cleared = ScanState { pending: None, ..self };
        match self.stack.last() {
            Val::Array(a) => ScanState { stack: self.stack.update(top, Val::Array(a.push(v))), ..cleared },
            Val::Object(es) => match self.pending {
                Some(k) => ScanState {
                    stack: self.stack.update(top, Val::Object(insert_entry(es, k, v))),
                    ..cleared
                },
                None => cleared.record(ConditionKind::MissingKeyForValue, pos),
            },
            _ => cleared,
        }
    }

    /// A string was read: it is a key, or a value.
    pub open spec fn on_text(self, t: Seq<char>, pos: usize) -> ScanState {
        if self.pending is None && !self.in_array() {
            ScanState { pending: Some(t), ..self }
        } else {
            self.file_value(Val::Text(t), pos)
        }
    }

    /// `{` (object) or `[` (not object) opens a container.
    pub open spec fn open(self, object: bool, pos: usize) -> ScanState {
        let fresh = if object {
            Val::Object(Seq::empty())
        } else {
            Val::Array(Seq::empty())
        };
        match self.pending {
            Some(k) => ScanState {
                stack: self.stack.push(fresh),
                tags: self.tags.push(k),
                pending: None,
                ..self
            },
            None => if self.in_array() {
                ScanState { stack: self.stack.push(fresh), ..self }
            } else {
                self.record(ConditionKind::UnexpectedContainerOpen, pos)
            },
        }
    }

    /// `}` or `]` closes the container on top and files it into its parent.
    pub open spec fn close(self, pos: usize) -> ScanState {
        if self.stack.len() > 1 {
            let c = self.stack.last();
            let rest = self.stack.drop_last();
            let top = rest.len() - 1;
            match rest.last() {
                Val::Array(a) => ScanState { stack: rest.update(top, Val::Array(a.push(c))), ..self },
                Val::Object(es) => if self.tags.len() > 0 {
                    ScanState {
                        stack: rest.update(top, Val::Object(insert_entry(es, self.tags.last(), c))),
                        tags: self.tags.drop_last(),
                        ..self
                    }
                } else {
                    ScanState { stack: rest, ..self }.record(ConditionKind::MissingKeyForContainer, pos)
                },
                _ => ScanState { stack: rest, ..self },
            }
        } else if !self.root_closed {
            ScanState { root_closed: true, ..self }
        } else {
            self.record(ConditionKind::UnbalancedContainers, pos)
        }
    }
}

/// Layout characters, skipped between tokens.
pub open spec fn is_layout(c: char) -> bool {
    c == '\n' || c == ' ' || c == ',' || c == ':'
}

/// Index of the quote that closes a string whose text starts at `j`: the
/// next quote not escaped by a backslash, before `end`; -1 if there is none.
pub open spec fn string_close(s: Seq<char>, j: int, end: int) -> int
    decreases end + 1 - j,
{
    if j < 0 || j >= end {
        -1
    } else if s[j] == '"' {
        j
    } else if s[j] == '\\' {
        string_close(s, j + 2, end)
    } else {
        string_close(s, j + 1, end)
    }
}

/// End of the run of numeral characters that starts at `j`.
pub open spec fn numeral_end(s: Seq<char>, j: int, end: int) -> int
    decreases end - j,
{
    if 0 <= j < end && is_numeral_char(s[j]) {
        numeral_end(s, j + 1, end)
    } else {
        j
    }
}

/// The value a numeral denotes: an integer if it is one that fits in 64
/// bits, else a real number if it reads as one.
pub open spec fn classify(t: Seq<char>) -> Option<Val> {
    if integer_of(t) is Some && fits_i64(integer_of(t)->Some_0) {
        Some(Val::Integer(integer_of(t)->Some_0))
    } else if is_real_numeral(t) {
        Some(Val::Real(t))
    } else {
        None
    }
}

/// One token at `i`: the position after it and the new state.
pub open spec fn step(s: Seq<char>, i: int, end: int, st: ScanState) -> (int, ScanState) {
    let c = s[i];
    let pos = i as usize;
    if is_layout(c) {
        (i + 1, st)
    } else if c == '"' {
        let j = string_close(s, i + 1, end);
        if j < 0 {
            (i + 1, st.record(ConditionKind::UnterminatedString, pos))
        } else {
            (j + 1, st.on_text(s.subrange(i + 1, j), pos))
        }
    } else if c == '{' {
        (i + 1, st.open(true, pos))
    } else if c == '[' {
        (i + 1, st.open(false, pos))
    } else if c == '}' || c == ']' {
        (i + 1, st.close(pos))
    } else {
        let j = numeral_end(s, i + 1, end);
        match classify(s.subrange(i, j)) {
            Some(v) => (j, st.file_value(v, pos)),
            None => (j, st.record(ConditionKind::InvalidNumeral, pos).file_value(Val::Nothing, pos)),
        }
    }
}

/// The state after scanning `s[i..end]` from `st`.
pub open spec fn scan(s: Seq<char>, i: int, end: int, st: ScanState) -> ScanState
    decreases end - i,
{
    if 0 <= i < end <= s.len() {
        let next = step(s, i, end, st);
        if i < next.0 <= end {
            scan(s, next.0, end, next.1)
        } else {
            next.1
        }
    } else {
        st
    }
}

/// A scan that starts with `root` as the only open container.
pub open spec fn initial(root: Entries) -> ScanState {
    ScanState {
        stack: seq![Val::Object(root)],
        tags: Seq::empty(),
        pending: None,
        root_closed: false,
        conds: Seq::empty(),
    }
}

/// The root object at the end of a scan, and the conditions recorded, with
/// containers still open at `end` reported as unbalanced.
pub open spec fn finish(st: ScanState, end: int) -> (Entries, Seq<Condition>) {
    let conds = if st.stack.len() > 1 {
        st.conds.push(Condition { kind: ConditionKind::UnbalancedContainers, position: end as usize })
    } else {
        st.conds
    };
    (st.stack[0]->Object_0, conds)
}

proof fn lemma_string_close(s: Seq<char>, j: int, end: int)
    ensures
        string_close(s, j, end) == -1 || (j <= string_close(s, j, end) < end),
    decreases end + 1 - j,
{
    if 0 <= j < end && s[j] != '"' {
        if s[j] == '\\' {
            lemma_string_close(s, j + 2, end);
        } else {
            lemma_string_close(s, j + 1, end);
        }
    }
}

proof fn lemma_numeral_end(s: Seq<char>, j: int, end: int)
    requires
        j <= end,
    ensures
        j <= numeral_end(s, j, end) <= end,
    decreases end - j,
{
    if 0 <= j < end && is_numeral_char(s[j]) {
        lemma_numeral_end(s, j + 1, end);
    }
}

/// What a scan of all of `s` after its first `{` gives: the root object and
/// the conditions found.
pub open spec fn scan_after_brace(s: Seq<char>) -> (Entries, Seq<Condition>) {
    let f = find_char(s, '{', 0);
    let start = if f < s.len() {
        f + 1
    } else {
        f
    };
    finish(scan(s, start, s.len() as int, initial(Seq::empty())), s.len() as int)
}

/// What parsing `s` gives: surrounding whitespace is ignored, and text that
/// does not then begin with `{` gives an empty object and one condition.
pub open spec fn parse_model(s: Seq<char>) -> (Entries, Seq<Condition>) {
    let a = skip_whitespace(s, 0);
    let b = trim_end(s, s.len() as int);
    if a < b && s[a] == '{' {
        finish(scan(s, a + 1, b, initial(Seq::empty())), b)
    } else {
        (Seq::empty(), seq![Condition { kind: ConditionKind::InputNotAnObject, position: a as usize }])
    }
}

impl ScanState {
    /// Every container on the stack has unique keys, at any depth.
    pub open spec fn sound(self) -> bool {
        forall|i: int| 0 <= i < self.stack.len() ==> val_wf(#[trigger] self.stack[i])
    }
}

proof fn lemma_file_sound(st: ScanState, v: Val, pos: usize)
    requires
        st.wf(),
        st.sound(),
        val_wf(v),
    ensures
        st.file_value(v, pos).sound(),
{
    let top = st.stack.len() - 1;
    let r = st.file_value(v, pos);
    assert(val_wf(st.stack[top]));
    match st.stack.last() {
        Val::Array(a) => {
            assert(val_wf(Val::Array(a.push(v))));
        },
        Val::Object(es) => {
            if let Some(k) = st.pending {
                lemma_insert_entry_wf(es, k, v);
            }
        },
        _ => {},
    }
    assert forall|i: int| 0 <= i < r.stack.len() implies val_wf(#[trigger] r.stack[i]) by {
        if i != top {
            assert(r.stack[i] == st.stack[i]);
        }
    }
}

proof fn lemma_close_sound(st: ScanState, pos: usize)
    requires
        st.wf(),
        st.sound(),
    ensures
        st.close(pos).sound(),
{
    let r = st.close(pos);
    if st.stack.len() > 1 {
        let c = st.stack.last();
        let rest = st.stack.drop_last();
        let top = rest.len() - 1;
        assert(val_wf(c));
        assert(val_wf(rest[top]));
        match rest.last() {
            Val::Array(a) => {
                assert(val_wf(Val::Array(a.push(c))));
            },
            Val::Object(es) => {
                if st.tags.len() > 0 {
                    lemma_insert_entry_wf(es, st.tags.last(), c);
                }
            },
            _ => {},
        }
        assert forall|i: int| 0 <= i < r.stack.len() implies val_wf(#[trigger] r.stack[i]) by {
            if i != top {
                assert(r.stack[i] == st.stack[i]);
            }
        }
    }
}

proof fn lemma_step_sound(s: Seq<char>, i: int, end: int, st: ScanState)
    requires
        st.wf(),
        st.sound(),
        0 <= i < end <= s.len(),
    ensures
        step(s, i, end, st).1.sound(),
        step(s, i, end, st).1.wf(),
{
    let c = s[i];
    let pos = i as usize;
    if is_layout(c) {
    } else if c == '"' {
        let j = string_close(s, i + 1, end);
        if j >= 0 {
            let t = s.subrange(i + 1, j);
            if !(st.pending is None && !st.in_array()) {
                lemma_file_sound(st, Val::Text(t), pos);
            }
        }
    } else if c == '{' || c == '[' {
        let r = step(s, i, end, st).1;
        assert(val_wf(Val::Object(Seq::empty())));
        assert(val_wf(Val::Array(Seq::empty())));
        assert forall|x: int| 0 <= x < r.stack.len() implies val_wf(#[trigger] r.stack[x]) by {
            if x < st.stack.len() {
                assert(r.stack[x] == st.stack[x]);
            }
        }
        assert forall|x: int| 0 <= x < r.stack.len() implies is_container(#[trigger] r.stack[x]) by {
            if x < st.stack.len() {
                assert(r.stack[x] == st.stack[x]);
            }
        }
    } else if c == '}' || c == ']' {
        lemma_close_sound(st, pos);
        let r = st.close(pos);
        assert forall|x: int| 0 <= x < r.stack.len() implies is_container(#[trigger] r.stack[x]) by {
            if st.stack.len() > 1 && x < r.stack.len() - 1 {
                assert(r.stack[x] == st.stack[x]);
            }
        }
    } else {
        let j = numeral_end(s, i + 1, end);
        match classify(s.subrange(i, j)) {
            Some(v) => {
                lemma_file_sound(st, v, pos);
            },
            None => {
                lemma_file_sound(st.record(ConditionKind::InvalidNumeral, pos), Val::Nothing, pos);
            },
        }
    }
}

proof fn lemma_scan_sound(s: Seq<char>, i: int, end: int, st: ScanState)
    requires
        st.wf(),
        st.sound(),
    ensures
        scan(s, i, end, st).sound(),
        scan(s, i, end, st).wf(),
    decreases end - i,
{
    if 0 <= i < end <= s.len() {
        lemma_step_sound(s, i, end, st);
        let next = step(s, i, end, st);
        if i < next.0 <= end {
            lemma_scan_sound(s, next.0, end, next.1);
        }
    }
}

/// A scan from a root with unique keys ends with a root with unique keys.
proof fn lemma_finish_sound(s: Seq<char>, i: int, end: int, root: Entries)
    requires
        entries_wf(root),
    ensures
        entries_wf(finish(scan(s, i, end, initial(root)), end).0),
{
    let st = initial(root);
    assert(st.sound());
    lemma_scan_sound(s, i, end, st);
    let r = scan(s, i, end, st);
    assert(val_wf(r.stack[0]));
}

/// Every object that parsing gives, at any depth, has unique keys.
pub proof fn lemma_parse_wf(s: Seq<char>)
    ensures
        entries_wf(parse_model(s).0),
        entries_wf(scan_after_brace(s).0),
{
    assert(entries_wf(Seq::empty()));
    let a = crate::text::skip_whitespace(s, 0);
    let b = crate::text::trim_end(s, s.len() as int);
    lemma_finish_sound(s, a + 1, b, Seq::empty());
    let f = find_char(s, '{', 0);
    let start = if f < s.len() {
        f + 1
    } else {
        f
    };
    lemma_finish_sound(s, start, s.len() as int, Seq::empty());
}

/// The scanner: a stack of containers under construction and the key
/// that waits for its value.
pub struct JsonBuilder<'a> {
    json_build_stack: Vec<JsonValue<'a>>,
    tag_stack: Vec<&'a str>,
    current_tag: Option<&'a str>,
    root_closed: bool,
    conditions: Vec<Condition>,
}

pub open spec fn models<'a>(vs: Seq<JsonValue<'a>>) -> Seq<Val> {
    vs.map_values(|v: JsonValue<'a>| v.model())
}

pub open spec fn texts<'a>(ts: Seq<&'a str>) -> Seq<Seq<char>> {
    ts.map_values(|t: &'a str| t@)
}

proof fn lemma_array_push<'a>(a: Vec<JsonValue<'a>>, b: Vec<JsonValue<'a>>, v: JsonValue<'a>)
    requires
        b@ == a@.push(v),
    ensures
        JsonValue::Array(b).model() == Val::Array(
            JsonValue::Array(a).model()->Array_0.push(v.model()),
        ),
{
    assert(JsonValue::Array(b).model()->Array_0 =~= JsonValue::Array(a).model()->Array_0.push(
        v.model(),
    ));
}

proof fn lemma_object_model<'a>(b: Box<Json<'a>>)
    ensures
        JsonValue::Object(b).model() == Val::Object(b.model()),
{
    assert(JsonValue::Object(b).model()->Object_0 =~= b.model());
}

impl<'a> JsonBuilder<'a> {
    pub closed spec fn state(&self) -> ScanState {
        ScanState {
            stack: models(self.json_build_stack@),
            tags: texts(self.tag_stack@),
            pending: match self.current_tag {
                Some(t) => Some(t@),
                None => None,
            },
            root_closed: self.root_closed,
            conds: self.conditions@,
        }
    }

    /// Files `v` into the container on top of the stack.
    fn set_current_value(&mut self, v: JsonValue<'a>, pos: usize)
        requires
            old(self).state().wf(),
        ensures
            final(self).state() == old(self).state().file_value(v.model(), pos),
            final(self).state().wf(),
    {
        let ghost st = self.state();
        let ghost vm = v.model();
        let ghost n = self.json_build_stack.len() - 1;
        let ghost below = self.json_build_stack@.drop_last();
        let top = self.json_build_stack.pop().unwrap();
        assert(models(below) =~= st.stack.drop_last());
        let tag = self.current_tag;
        self.current_tag = None;
        match top {
            JsonValue::Array(mut a) => {
                let ghost a0 = a;
                a.push(v);
                proof {
                    lemma_array_push(a0, a, v);
                }
                self.json_build_stack.push(JsonValue::Array(a));
            },
            JsonValue::Object(mut b) => {
                proof {
                    lemma_object_model(b);
                }
                match tag {
                    Some(k) => {
                        b.insert(k, v);
                    },
                    None => {
                        self.conditions.push(
                            Condition { kind: ConditionKind::MissingKeyForValue, position: pos },
                        );
                    },
                }
                proof {
                    lemma_object_model(b);
                }
                self.json_build_stack.push(JsonValue::Object(b));
            },
            other => {
                self.json_build_stack.push(other);
            },
        }
        assert(self.state().stack =~= st.file_value(vm, pos).stack);
    }

    /// Parses the text of a JSON object that follows its first `{`.
    pub fn parse(json_str: &'a str) -> (r: Box<Json<'a>>)
        ensures
            r.model() == scan_after_brace(json_str@).0,
            entries_wf(r.model()),
    {
        proof {
            lemma_parse_wf(json_str@);
        }
        let chars = chars_of(json_str);
        let f = position_of(&chars, '{');
        let start = if f < chars.len() {
            f + 1
        } else {
            f
        };
        let (root, _conditions) = JsonBuilder::parse_internal(
            Box::new(Json::new()),
            &chars,
            json_str,
            start,
            chars.len(),
        );
        root
    }

    /// Scans `chars[start..end]` into `json` and returns it with the
    /// conditions found.
    fn parse_internal(json: Box<Json<'a>>, chars: &Vec<char>, src: &'a str, start: usize, end: usize) -> (r: (
        Box<Json<'a>>,
        Vec<Condition>,
    ))
        requires
            src@ == chars@,
            start <= end <= chars.len(),
        ensures
            (r.0.model(), r.1@) == finish(scan(chars@, start as int, end as int, initial(json.model())), end as int),
    {
        proof {
            lemma_object_model(json);
        }
        let mut builder = JsonBuilder {
            json_build_stack: Vec::new(),
            tag_stack: Vec::new(),
            current_tag: None,
            root_closed: false,
            conditions: Vec::new(),
        };
        builder.json_build_stack.push(JsonValue::Object(json));
        assert(builder.state().stack =~= initial(json.model()).stack);
        assert(builder.state().tags =~= initial(json.model()).tags);
        assert(builder.state().conds =~= initial(json.model()).conds);
        builder.parse_next_value(chars, src, start, end);
        let ghost st = builder.state();
        if builder.json_build_stack.len() > 1 {
            builder.conditions.push(
                Condition { kind: ConditionKind::UnbalancedContainers, position: end },
            );
        }
        let root = builder.json_build_stack.swap_remove(0);
        assert(root.model() == st.stack[0]);
        match root {
            JsonValue::Object(b) => {
                proof {
                    lemma_object_model(b);
                }
                (b, builder.conditions)
            },
            _ => (Box::new(Json::new()), builder.conditions),
        }
    }

    /// Scans `chars[start..end]`, one token at a time, into the containers.
    fn parse_next_value(&mut self, chars: &Vec<char>, src: &'a str, start: usize, end: usize)
        requires
            old(self).state().wf(),
            src@ == chars@,
            start <= end <= chars.len(),
        ensures
            final(self).state() == scan(chars@, start as int, end as int, old(self).state()),
            final(self).state().wf(),
    {
        let mut i: usize = start;
        while i < end
            invariant
                self.state().wf(),
                src@ == chars@,
                start <= i <= end <= chars.len(),
                scan(chars@, i as int, end as int, self.state()) == scan(
                    chars@,
                    start as int,
                    end as int,
                    old(self).state(),
                ),
            decreases end - i,
        {
            let ghost st = self.state();
            let c = chars[i];
            if c == '\n' || c == ' ' || c == ',' || c == ':' {
                i = i + 1;
            } else if c == '"' {
                proof {
                    lemma_string_close(chars@, i + 1, end as int);
                }
                match JsonBuilder::read_string(chars, i + 1, end) {
                    Some(j) => {
                        let text = src.substring_char(i + 1, j);
                        if self.current_tag.is_none() && !self.is_in_array() {
                            self.current_tag = Some(text);
                        } else {
                            self.set_current_value(JsonValue::StringRef(text), i);
                        }
                        i = j + 1;
                    },
                    None => {
                        self.conditions.push(
                            Condition { kind: ConditionKind::UnterminatedString, position: i },
                        );
                        i = i + 1;
                    },
                }
            } else if c == '{' {
                self.begin_next_object(i);
                i = i + 1;
            } else if c == '[' {
                self.begin_next_array(i);
                i = i + 1;
            } else if c == '}' || c == ']' {
                self.end_current_object_or_array(i);
                i = i + 1;
            } else {
                proof {
                    lemma_numeral_end(chars@, i + 1, end as int);
                }
                i = self.read_number_value(chars, src, i, end);
            }
        }
    }

    /// Finds the quote that closes a string whose text starts at `from`.
    fn read_string(chars: &Vec<char>, from: usize, end: usize) -> (r: Option<usize>)
        requires
            from <= end <= chars.len(),
        ensures
            match r {
                Some(j) => string_close(chars@, from as int, end as int) == j as int,
                None => string_close(chars@, from as int, end as int) == -1,
            },
    {
        let mut k: usize = from;
        while k < end
            invariant
                from <= k,
                end <= chars.len(),
                string_close(chars@, from as int, end as int) == string_close(
                    chars@,
                    k as int,
                    end as int,
                ),
            decreases end - k,
        {
            if chars[k] == '"' {
                return Some(k);
            } else if chars[k] == '\\' {
                if end - k < 2 {
                    assert(string_close(chars@, k + 2, end as int) == -1);
                    return None;
                }
                k = k + 2;
            } else {
                k = k + 1;
            }
        }
        None
    }

    /// Reads the numeral that starts at `from` and files its value; returns
    /// the position after it.
    fn read_number_value(&mut self, chars: &Vec<char>, src: &'a str, from: usize, end: usize) -> (r:
        usize)
        requires
            old(self).state().wf(),
            src@ == chars@,
            from < end <= chars.len(),
            !is_layout(chars@[from as int]),
            chars@[from as int] != '"',
            chars@[from as int] != '{',
            chars@[from as int] != '[',
            chars@[from as int] != '}',
            chars@[from as int] != ']',
        ensures
            (r as int, final(self).state()) == step(chars@, from as int, end as int, old(self).state()),
            final(self).state().wf(),
    {
        let mut j: usize = from + 1;
        while j < end && (chars[j] == '.' || chars[j] == '-' || ('0' <= chars[j] && chars[j] <= '9'))
            invariant
                from < j <= end <= chars.len(),
                numeral_end(chars@, from + 1, end as int) == numeral_end(chars@, j as int, end as int),
            decreases end - j,
        {
            j = j + 1;
        }
        let ghost t = chars@.subrange(from as int, j as int);
        match integer_value(chars, from, j) {
            Some(n) => {
                self.set_current_value(JsonValue::Integer(n), from);
            },
            None => {
                if is_real_value(chars, from, j) {
                    let text = src.substring_char(from, j);
                    self.set_current_value(JsonValue::Double(text), from);
                } else {
                    self.conditions.push(
                        Condition { kind: ConditionKind::InvalidNumeral, position: from },
                    );
                    self.set_current_value(JsonValue::Nothing, from);
                }
            },
        }
        j
    }

    /// Whether the container on top of the stack is an array.
    fn is_in_array(&self) -> (r: bool)
        requires
            self.state().wf(),
        ensures
            r == self.state().in_array(),
    {
        let n = self.json_build_stack.len();
        match &self.json_build_stack[n - 1] {
            JsonValue::Array(_) => true,
            _ => false,
        }
    }

    /// Pushes a new container, under the pending key if there is one.
    fn push_container(&mut self, fresh: JsonValue<'a>, pos: usize)
        requires
            old(self).state().wf(),
            fresh.model() == Val::Object(Seq::empty()) || fresh.model() == Val::Array(Seq::empty()),
        ensures
            final(self).state() == old(self).state().open(fresh is Object, pos),
            final(self).state().wf(),
    {
        let ghost st = self.state();
        match self.current_tag {
            Some(k) => {
                self.json_build_stack.push(fresh);
                self.tag_stack.push(k);
                self.current_tag = None;
                assert(self.state().stack =~= st.open(fresh is Object, pos).stack);
                assert(self.state().tags =~= st.open(fresh is Object, pos).tags);
            },
            None => {
                if self.is_in_array() {
                    self.json_build_stack.push(fresh);
                    assert(self.state().stack =~= st.open(fresh is Object, pos).stack);
                } else {
                    self.conditions.push(
                        Condition { kind: ConditionKind::UnexpectedContainerOpen, position: pos },
                    );
                }
            },
        }
    }

    /// `{`: opens an object.
    fn begin_next_object(&mut self, pos: usize)
        requires
            old(self).state().wf(),
        ensures
            final(self).state() == old(self).state().open(true, pos),
            final(self).state().wf(),
    {
        let fresh = JsonValue::Object(Box::new(Json::new()));
        assert(fresh.model()->Object_0 =~= Seq::<(Seq<char>, Val)>::empty());
        self.push_container(fresh, pos);
    }

    /// `[`: opens an array.
    fn begin_next_array(&mut self, pos: usize)
        requires
            old(self).state().wf(),
        ensures
            final(self).state() == old(self).state().open(false, pos),
            final(self).state().wf(),
    {
        let fresh = JsonValue::Array(Vec::new());
        assert(fresh.model()->Array_0 =~= Seq::<Val>::empty());
        self.push_container(fresh, pos);
    }

    /// `}` or `]`: closes the container on top and files it into its parent.
    fn end_current_object_or_array(&mut self, pos: usize)
        requires
            old(self).state().wf(),
        ensures
            final(self).state() == old(self).state().close(pos),
            final(self).state().wf(),
    {
        let ghost st = self.state();
        if self.json_build_stack.len() > 1 {
            let ghost below = self.json_build_stack@.drop_last();
            let current = self.json_build_stack.pop().unwrap();
            let ghost below2 = self.json_build_stack@.drop_last();
            let parent = self.json_build_stack.pop().unwrap();
            assert(models(below2) =~= st.stack.drop_last().drop_last());
            let ghost cm = current.model();
            match parent {
                JsonValue::Array(mut a) => {
                    let ghost a0 = a;
                    a.push(current);
                    proof {
                        lemma_array_push(a0, a, current);
                    }
                    self.json_build_stack.push(JsonValue::Array(a));
                },
                JsonValue::Object(mut b) => {
                    proof {
                        lemma_object_model(b);
                    }
                    match self.tag_stack.pop() {
                        Some(k) => {
                            b.insert(k, current);
                        },
                        None => {
                            self.conditions.push(
                                Condition {
                                    kind: ConditionKind::MissingKeyForContainer,
                                    position: pos,
                                },
                            );
                        },
                    }
                    proof {
                        lemma_object_model(b);
                    }
                    self.json_build_stack.push(JsonValue::Object(b));
                },
                other => {
                    self.json_build_stack.push(other);
                },
            }
            assert(self.state().stack =~= st.close(pos).stack);
            assert(self.state().tags =~= st.close(pos).tags);
        } else if !self.root_closed {
            self.root_closed = true;
        } else {
            self.conditions.push(
                Condition { kind: ConditionKind::UnbalancedContainers, position: pos },
            );
        }
    }
}

/// Parses a JSON object and reports the conditions found on the way.
pub fn parse_with_conditions<'a>(raw_str: &'a str) -> (r: (Box<Json<'a>>, Vec<Condition>))
    ensures
        (r.0.model(), r.1@) == parse_model(raw_str@),
        entries_wf(r.0.model()),
{
    proof {
        lemma_parse_wf(raw_str@);
    }
    let chars = chars_of(raw_str);
    let (a, b) = trim_bounds(&chars);
    if a < b && chars[a] == '{' {
        JsonBuilder::parse_internal(Box::new(Json::new()), &chars, raw_str, a + 1, b)
    } else {
        let mut conditions: Vec<Condition> = Vec::new();
        conditions.push(Condition { kind: ConditionKind::InputNotAnObject, position: a });
        let r = (Box::new(Json::new()), conditions);
        assert(r.1@ =~= parse_model(raw_str@).1);
        r
    }
}

/// Parses a JSON object; what cannot be read is left out.
pub fn parse<'a>(raw_str: &'a str) -> (r: Box<Json<'a>>)
    ensures
        r.model() == parse_model(raw_str@).0,
        entries_wf(r.model()),
{
    let (root, _conditions) = parse_with_conditions(raw_str);
    root
}

} // verus!
