//! The JSON data model the converter works on: values, objects with
//! distinct keys kept in insertion order, and numbers as the renderer reads
//! them.

use vstd::prelude::*;

use crate::keyed::{insert_entry, key_index, keys_of, lemma_insert_distinct, lemma_key_index, lookup};
use crate::text::{chars_of, decimal, digit_char, i64_text, int_text, to_owned};

verus! {

/// A binary64 (IEEE-754 double) value, as the renderer reads it: its
/// integer value when it is integral and less than 10^15 in magnitude, and
/// its standard decimal rendering (plain digits, never an exponent; `NaN`,
/// `inf` or `-inf` for the values that are not finite). The two agree:
/// see `binary64_shaped`.
#[derive(Debug, PartialEq)]
pub struct Binary64 {
    whole: Option<i64>,
    display: String,
}

/// How a JSON number is held: a non-negative integer, a negative integer,
/// or a finite floating-point number.
#[derive(Debug, Clone, Copy, PartialEq)]
pub enum NumberRepr {
    UInt(u64),
    NegInt(i64),
    Float,
}

/// A JSON number: its exact form, and the binary64 value nearest to it.
/// The two agree: see `number_shaped`.
#[derive(Debug, PartialEq)]
pub struct JsonNumber {
    repr: NumberRepr,
    approx: Binary64,
}

/// `c` is one of `0`..`9`.
pub open spec fn decimal_digit(c: char) -> bool {
    '0' <= c && c <= '9'
}

/// The length of a leading `-`, if any.
pub open spec fn sign_len(s: Seq<char>) -> int {
    if s.len() > 0 && s[0] == '-' {
        1
    } else {
        0
    }
}

/// Plain decimal text: an optional `-`, then digits with at most one `.`
/// standing between digits; never an exponent.
pub open spec fn plain_decimal(s: Seq<char>) -> bool {
    let b = sign_len(s);
    &&& s.len() > b
    &&& decimal_digit(s[b])
    &&& decimal_digit(s[s.len() - 1])
    &&& forall|i: int| b <= i < s.len() ==> decimal_digit(#[trigger] s[i]) || s[i] == '.'
    &&& forall|i: int, j: int|
        b <= i < j < s.len() && #[trigger] s[i] == '.' ==> #[trigger] s[j] != '.'
}

/// Plain decimal text of a whole number below 10^15 in magnitude (at most
/// fifteen digits, no `.`).
pub open spec fn short_whole(s: Seq<char>) -> bool {
    plain_decimal(s) && !s.contains('.') && s.len() - sign_len(s) <= 15
}

/// What makes a whole part and a rendering describe one binary64 value: a
/// whole part is below 10^15 in magnitude and rendered as its decimal text
/// (`-0` for negative zero); without a whole part the rendering is `NaN`,
/// `inf`, `-inf`, or plain decimal text that is not a whole number below
/// 10^15.
pub open spec fn binary64_shaped(whole: Option<i64>, d: Seq<char>) -> bool {
    match whole {
        Some(w) => -1_000_000_000_000_000 < w < 1_000_000_000_000_000 && (d == int_text(w as int)
            || (w == 0 && d == "-0"@)),
        None => d == "NaN"@ || d == "inf"@ || d == "-inf"@ || (plain_decimal(d) && !short_whole(
            d,
        )),
    }
}

/// What makes an exact number and a binary64 value describe one JSON
/// number: an integer below 10^15 in magnitude is its own whole part; a
/// larger one has no whole part and renders as plain digits with no `.`; a
/// floating-point number is finite.
pub open spec fn number_shaped(repr: NumberRepr, a: Binary64) -> bool {
    match repr {
        NumberRepr::UInt(u) => if u < 1_000_000_000_000_000 {
            a.whole_part() == Some(u as i64)
        } else {
            a.whole_part() is None && plain_decimal(a.text()) && !a.text().contains('.')
        },
        NumberRepr::NegInt(i) => if i > -1_000_000_000_000_000 {
            a.whole_part() == Some(i)
        } else {
            a.whole_part() is None && plain_decimal(a.text()) && !a.text().contains('.')
        },
        NumberRepr::Float => a.whole_part() is Some || plain_decimal(a.text()),
    }
}

/// The decimal digits of a natural number are digits, at least one.
proof fn lemma_decimal_digits(n: nat)
    ensures
        decimal(n).len() > 0,
        forall|k: int| 0 <= k < decimal(n).len() ==> decimal_digit(#[trigger] decimal(n)[k]),
    decreases n,
{
    if n >= 10 {
        lemma_decimal_digits(n / 10);
        let d = (n % 10) as int;
        assert(decimal_digit(digit_char(d)));
        assert forall|k: int| 0 <= k < decimal(n).len() implies decimal_digit(
            #[trigger] decimal(n)[k],
        ) by {
            if k < decimal(n / 10).len() {
                assert(decimal(n)[k] == decimal(n / 10)[k]);
            }
        }
    } else {
        assert(decimal_digit(digit_char(n as int)));
    }
}

/// The decimal text of an integer is plain decimal text without a `.`.
pub proof fn lemma_int_text_plain(i: int)
    ensures
        plain_decimal(int_text(i)),
        !int_text(i).contains('.'),
{
    if i < 0 {
        let m = (-i) as nat;
        lemma_decimal_digits(m);
        let t = int_text(i);
        assert(t[0] == '-');
        assert forall|k: int| 1 <= k < t.len() implies decimal_digit(#[trigger] t[k]) by {
            assert(t[k] == decimal(m)[k - 1]);
        }
        assert(t[t.len() - 1] == decimal(m)[decimal(m).len() - 1]);
        assert(t[1] == decimal(m)[0]);
        if t.contains('.') {
            let k = choose|k: int| 0 <= k < t.len() && t[k] == '.';
            assert(decimal_digit(t[k]));
        }
    } else {
        let m = i as nat;
        lemma_decimal_digits(m);
        let t = int_text(i);
        assert(decimal_digit(t[0]));
        if t.contains('.') {
            let k = choose|k: int| 0 <= k < t.len() && t[k] == '.';
            assert(decimal_digit(t[k]));
        }
    }
}

/// Whether `v` is plain decimal text.
fn is_plain_decimal(v: &Vec<char>) -> (r: bool)
    ensures
        r == plain_decimal(v@),
{
    let n = v.len();
    let b: usize = if n > 0 && v[0] == '-' {
        1
    } else {
        0
    };
    if n <= b {
        return false;
    }
    if !is_digit(v[b]) || !is_digit(v[n - 1]) {
        return false;
    }
    let mut seen_dot = false;
    let mut i: usize = b;
    while i < n
        invariant
            n == v@.len(),
            b == sign_len(v@),
            b < n,
            b <= i <= n,
            forall|k: int| b <= k < i ==> decimal_digit(#[trigger] v@[k]) || v@[k] == '.',
            forall|k1: int, k2: int|
                b <= k1 < k2 < i && #[trigger] v@[k1] == '.' ==> #[trigger] v@[k2] != '.',
            seen_dot <==> exists|k: int| b <= k < i && #[trigger] v@[k] == '.',
        decreases n - i,
    {
        let c = v[i];
        if c == '.' {
            if seen_dot {
                let ghost k = choose|k: int| b <= k < i && #[trigger] v@[k] == '.';
                assert(v@[k] == '.' && v@[i as int] == '.');
                return false;
            }
            seen_dot = true;
        } else if !is_digit(c) {
            return false;
        }
        i = i + 1;
    }
    true
}

/// Whether `c` is an ASCII digit.
fn is_digit(c: char) -> (r: bool)
    ensures
        r == decimal_digit(c),
{
    '0' <= c && c <= '9'
}

/// Whether `v` holds a `.`.
fn has_point(v: &Vec<char>) -> (r: bool)
    ensures
        r == v@.contains('.'),
{
    let mut i: usize = 0;
    while i < v.len()
        invariant
            i <= v@.len(),
            forall|k: int| 0 <= k < i ==> v@[k] != '.',
        decreases v.len() - i,
    {
        if v[i] == '.' {
            return true;
        }
        i = i + 1;
    }
    false
}

/// Whether `whole` and `display` describe one binary64 value.
fn binary64_shape_ok(whole: Option<i64>, display: &String) -> (r: bool)
    ensures
        r == binary64_shaped(whole, display@),
{
    match whole {
        Some(w) => {
            if !(-1_000_000_000_000_000 < w && w < 1_000_000_000_000_000) {
                return false;
            }
            *display == i64_text(w) || (w == 0 && *display == to_owned("-0"))
        },
        None => {
            if *display == to_owned("NaN") || *display == to_owned("inf") || *display == to_owned(
                "-inf",
            ) {
                return true;
            }
            let v = chars_of(display.as_str());
            if !is_plain_decimal(&v) {
                return false;
            }
            let b: usize = if v[0] == '-' {
                1
            } else {
                0
            };
            has_point(&v) || v.len() - b > 15
        },
    }
}

impl Binary64 {
    #[verifier::type_invariant]
    closed spec fn well_formed(self) -> bool {
        binary64_shaped(self.whole, self.display@)
    }

    /// The integer value, when the value is whole and below 10^15.
    pub closed spec fn whole_part(self) -> Option<i64> {
        self.whole
    }

    /// The standard decimal rendering.
    pub closed spec fn text(self) -> Seq<char> {
        self.display@
    }

    /// The value with the given whole part and rendering, when the two
    /// describe one binary64 value; `None` otherwise.
    pub fn new(whole: Option<i64>, display: String) -> (r: Option<Self>)
        ensures
            r is Some <==> binary64_shaped(whole, display@),
            r matches Some(b) ==> b.whole_part() == whole && b.text() == display@,
    {
        if binary64_shape_ok(whole, &display) {
            Some(Binary64 { whole, display })
        } else {
            None
        }
    }

    /// The integer value, when the value is whole and below 10^15.
    pub fn whole(&self) -> (r: Option<i64>)
        ensures
            r == self.whole_part(),
            binary64_shaped(self.whole_part(), self.text()),
    {
        proof {
            use_type_invariant(self);
        }
        self.whole
    }

    /// The standard decimal rendering.
    pub fn display(&self) -> (r: &String)
        ensures
            r@ == self.text(),
            binary64_shaped(self.whole_part(), self.text()),
    {
        proof {
            use_type_invariant(self);
        }
        &self.display
    }

    /// A copy of this value.
    pub fn duplicate(&self) -> (r: Self)
        ensures
            r == *self,
    {
        proof {
            use_type_invariant(self);
        }
        Binary64 { whole: self.whole, display: self.display.clone() }
    }
}

impl Clone for Binary64 {
    fn clone(&self) -> (r: Self)
        ensures
            r == *self,
    {
        self.duplicate()
    }
}

/// Whether an exact number and a binary64 value describe one JSON number.
fn number_shape_ok(repr: NumberRepr, approx: &Binary64) -> (r: bool)
    ensures
        r == number_shaped(repr, *approx),
{
    let w = approx.whole();
    match repr {
        NumberRepr::UInt(u) => {
            if u < 1_000_000_000_000_000 {
                w == Some(u as i64)
            } else {
                let v = chars_of(approx.display().as_str());
                w.is_none() && is_plain_decimal(&v) && !has_point(&v)
            }
        },
        NumberRepr::NegInt(i) => {
            if i > -1_000_000_000_000_000 {
                w == Some(i)
            } else {
                let v = chars_of(approx.display().as_str());
                w.is_none() && is_plain_decimal(&v) && !has_point(&v)
            }
        },
        NumberRepr::Float => {
            if w.is_some() {
                true
            } else {
                let v = chars_of(approx.display().as_str());
                is_plain_decimal(&v)
            }
        },
    }
}

impl JsonNumber {
    #[verifier::type_invariant]
    closed spec fn well_formed(self) -> bool {
        number_shaped(self.repr, self.approx)
    }

    /// The exact form.
    pub closed spec fn repr_part(self) -> NumberRepr {
        self.repr
    }

    /// The nearest binary64 value.
    pub closed spec fn approx_part(self) -> Binary64 {
        self.approx
    }

    /// The number with the given exact form and binary64 value, when the
    /// two agree; `None` otherwise.
    pub fn new(repr: NumberRepr, approx: Binary64) -> (r: Option<Self>)
        ensures
            r is Some <==> number_shaped(repr, approx),
            r matches Some(n) ==> n.repr_part() == repr && n.approx_part() == approx,
    {
        if number_shape_ok(repr, &approx) {
            Some(JsonNumber { repr, approx })
        } else {
            None
        }
    }

    /// The exact form.
    pub fn repr(&self) -> (r: NumberRepr)
        ensures
            r == self.repr_part(),
            number_shaped(self.repr_part(), self.approx_part()),
    {
        proof {
            use_type_invariant(self);
        }
        self.repr
    }

    /// The nearest binary64 value.
    pub fn approx(&self) -> (r: &Binary64)
        ensures
            *r == self.approx_part(),
            number_shaped(self.repr_part(), self.approx_part()),
    {
        proof {
            use_type_invariant(self);
        }
        &self.approx
    }

    /// A copy of this number.
    pub fn duplicate(&self) -> (r: Self)
        ensures
            r == *self,
    {
        proof {
            use_type_invariant(self);
        }
        JsonNumber { repr: self.repr, approx: self.approx.duplicate() }
    }
}

/// A JSON value.
#[derive(Debug)]
pub enum JsonValue {
    Null,
    Bool(bool),
    Number(JsonNumber),
    String(String),
    Array(Vec<JsonValue>),
    Object(JsonObject),
}

/// A JSON object: entries with distinct keys, in insertion order. (An
/// `IndexMap` cannot hold them: its type parameters must not be recursive,
/// and a JSON value contains objects.)
#[derive(Debug)]
pub struct JsonObject {
    entries: Vec<(String, JsonValue)>,
}

/// The mathematical model of a JSON value.
pub enum JsonView {
    Null,
    Bool(bool),
    Number(JsonNumber),
    Str(Seq<char>),
    Array(Seq<JsonView>),
    Object(Seq<(Seq<char>, JsonView)>),
}

/// The model of an object: its entries in order.
pub type Row = Seq<(Seq<char>, JsonView)>;

/// The model of a value.
pub open spec fn value_view(v: JsonValue) -> JsonView
    decreases v,
{
    match v {
        JsonValue::Null => JsonView::Null,
        JsonValue::Bool(b) => JsonView::Bool(b),
        JsonValue::Number(n) => JsonView::Number(n),
        JsonValue::String(s) => JsonView::Str(s@),
        JsonValue::Array(items) => JsonView::Array(
            Seq::new(
                items@.len(),
                |i: int|
                    if 0 <= i < items@.len() {
                        value_view(items@[i])
                    } else {
                        JsonView::Null
                    },
            ),
        ),
        JsonValue::Object(o) => JsonView::Object(object_view(o)),
    }
}

/// The model of an object.
pub open spec fn object_view(o: JsonObject) -> Row
    decreases o,
{
    Seq::new(
        o.entries().len(),
        |i: int|
            if 0 <= i < o.entries().len() {
                proof {
                    o.lemma_entry_decreases(i);
                }
                (o.entries()[i].0@, value_view(o.entries()[i].1))
            } else {
                (Seq::empty(), JsonView::Null)
            },
    )
}

impl View for JsonValue {
    type V = JsonView;

    open spec fn view(&self) -> JsonView {
        value_view(*self)
    }
}

impl View for JsonObject {
    type V = Row;

    open spec fn view(&self) -> Row {
        object_view(*self)
    }
}

impl Clone for JsonNumber {
    fn clone(&self) -> (r: Self)
        ensures
            r == *self,
    {
        self.duplicate()
    }
}

impl JsonValue {
    /// A deep copy of this value.
    #[verifier::loop_isolation(false)]
    pub fn duplicate(&self) -> (r: Self)
        ensures
            r@ == self@,
        decreases self,
    {
        match self {
            JsonValue::Null => JsonValue::Null,
            JsonValue::Bool(b) => JsonValue::Bool(*b),
            JsonValue::Number(n) => JsonValue::Number(n.duplicate()),
            JsonValue::String(s) => JsonValue::String(s.clone()),
            JsonValue::Array(items) => {
                let mut out: Vec<JsonValue> = Vec::new();
                let mut i: usize = 0;
                while i < items.len()
                    invariant
                        i <= items@.len(),
                        out@.len() == i,
                        forall|j: int| 0 <= j < i ==> out@[j]@ == items@[j]@,
                    decreases items.len() - i,
                {
                    assert(decreases_to!(*self => *items));
                    assert(decreases_to!(*items => items@));
                    assert(decreases_to!(items@ => items@[i as int]));
                    out.push(items[i].duplicate());
                    i = i + 1;
                }
                let r = JsonValue::Array(out);
                assert(value_view(r)->Array_0 =~= value_view(*self)->Array_0);
                r
            },
            JsonValue::Object(o) => JsonValue::Object(o.duplicate()),
        }
    }
}

impl JsonObject {
    /// A deep copy of this object.
    pub fn duplicate(&self) -> (r: Self)
        ensures
            r@ == self@,
        decreases self,
    {
        proof {
            use_type_invariant(self);
        }
        let mut out: Vec<(String, JsonValue)> = Vec::new();
        let mut i: usize = 0;
        while i < self.entries.len()
            invariant
                i <= self.entries@.len(),
                out@.len() == i,
                forall|j: int|
                    0 <= j < i ==> out@[j].0@ == self.entries@[j].0@ && out@[j].1@
                        == self.entries@[j].1@,
            decreases self.entries.len() - i,
        {
            proof {
                self.lemma_entry_decreases(i as int);
            }
            let k = self.entries[i].0.clone();
            let v = self.entries[i].1.duplicate();
            out.push((k, v));
            i = i + 1;
        }
        assert(object_view(JsonObject { entries: out }) =~= object_view(*self));
        JsonObject { entries: out }
    }

    /// The stored entries.
    pub closed spec fn entries(self) -> Seq<(String, JsonValue)> {
        self.entries@
    }

    #[verifier::type_invariant]
    closed spec fn distinct_keys(self) -> bool {
        keys_of(object_view(self)).no_duplicates()
    }

    /// Each stored value is structurally smaller than its object.
    pub proof fn lemma_entry_decreases(self, i: int)
        requires
            0 <= i < self.entries().len(),
        ensures
            decreases_to!(self => self.entries()[i].1),
    {
        assert(decreases_to!(self => self.entries));
        assert(decreases_to!(self.entries => self.entries@));
        assert(decreases_to!(self.entries@ => self.entries@[i]));
    }

    /// An empty object.
    pub fn new() -> (r: Self)
        ensures
            r@ == Seq::<(Seq<char>, JsonView)>::empty(),
    {
        let r = JsonObject { entries: Vec::new() };
        assert(object_view(r) =~= Seq::<(Seq<char>, JsonView)>::empty());
        r
    }

    /// The number of entries (whose keys are distinct).
    pub fn len(&self) -> (r: usize)
        ensures
            r == self@.len(),
            keys_of(self@).no_duplicates(),
    {
        proof {
            use_type_invariant(self);
        }
        self.entries.len()
    }

    /// The key of entry `i`.
    pub fn key_at(&self, i: usize) -> (r: &String)
        requires
            i < self@.len(),
        ensures
            r@ == self@[i as int].0,
    {
        &self.entries[i].0
    }

    /// The value of entry `i`.
    pub fn value_at(&self, i: usize) -> (r: &JsonValue)
        requires
            i < self@.len(),
        ensures
            r@ == self@[i as int].1,
            *r == self.entries()[i as int].1,
    {
        &self.entries[i].1
    }

    /// The value stored under `key`, if any.
    pub fn get(&self, key: &String) -> (r: Option<&JsonValue>)
        ensures
            match r {
                Some(v) => lookup(self@, key@) == Some(v@),
                None => lookup(self@, key@) is None,
            },
            r matches Some(v) ==> 0 <= key_index(self@, key@) < self.entries().len() && *v
                == self.entries()[key_index(self@, key@)].1,
    {
        let mut i: usize = 0;
        while i < self.entries.len()
            invariant
                i <= self@.len(),
                self@.len() == self.entries@.len(),
                forall|j: int| 0 <= j < i ==> self@[j].0 != key@,
            decreases self.entries.len() - i,
        {
            if self.entries[i].0 == *key {
                proof {
                    lemma_key_index(self@, key@);
                    assert(self@[i as int].0 == key@);
                    assert(key_index(self@, key@) == i);
                }
                return Some(&self.entries[i].1);
            }
            i = i + 1;
        }
        proof {
            lemma_key_index(self@, key@);
        }
        None
    }

    /// Inserts `value` under `key`: an existing entry with that key keeps its
    /// place and takes the new value; otherwise the entry is appended.
    pub fn insert(&mut self, key: String, value: JsonValue)
        ensures
            final(self)@ == insert_entry(old(self)@, key@, value@),
    {
        proof {
            use_type_invariant(&*self);
            lemma_key_index(self@, key@);
            lemma_insert_distinct(self@, key@, value@);
        }
        let ghost old_view = self@;
        let mut entries: Vec<(String, JsonValue)> = Vec::new();
        std::mem::swap(&mut entries, &mut self.entries);
        let mut i: usize = 0;
        let mut found = false;
        while i < entries.len()
            invariant_except_break
                !found,
            invariant
                i <= entries@.len(),
                entries@ == old(self).entries@,
                old_view == object_view(*old(self)),
                forall|j: int| 0 <= j < i ==> old_view[j].0 != key@,
            ensures
                found ==> i < entries@.len() && old_view[i as int].0 == key@,
                !found ==> i == entries@.len(),
            decreases entries.len() - i,
        {
            assert(old_view[i as int].0 == entries@[i as int].0@);
            if entries[i].0 == key {
                found = true;
                break;
            }
            i = i + 1;
        }
        if found {
            entries.set(i, (key, value));
        } else {
            entries.push((key, value));
        }
        assert(object_view(JsonObject { entries: entries }) =~= insert_entry(
            old_view,
            key@,
            value@,
        ));
        let r = JsonObject { entries };
        self.entries = r.entries;
    }
}

} // verus!
