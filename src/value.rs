//! Values: text, integers and null, and the domains a column can hold.

use vstd::prelude::*;

verus! {

broadcast use vstd::string::to_string_from_display_ensures_for_str;

/// The null value.
#[derive(PartialEq, Eq, PartialOrd, Ord, Debug, Clone, Copy, Structural)]
pub struct Null;

/// The null value, as a constant.
pub const NULL: Null = Null;

impl Null {
    /// The text form of null.
    pub fn to_string(&self) -> (r: String)
        ensures
            r@ == seq!['n', 'u', 'l', 'l'],
    {
        let r = "null".to_string();
        proof {
            reveal_strlit("null");
        }
        assert(r@ =~= seq!['n', 'u', 'l', 'l']);
        r
    }
}

/// The domain of a column.
#[derive(PartialEq, Eq, Debug, Clone, Copy, Structural)]
pub enum TypeKind {
    /// Text.
    Varchar,
    /// 32-bit integers.
    Integer,
}

/// A text, an integer or null. Values order by variant first (text, then
/// integer, then null) and by payload within a variant.
#[derive(PartialEq, Eq, PartialOrd, Ord, Debug, Clone)]
pub enum Value {
    /// Text.
    Varchar(String),
    /// An integer.
    Integer(i32),
    /// Null.
    Null(Null),
}

/// What a value is, mathematically.
pub enum ValueView {
    /// Text, as its characters.
    Varchar(Seq<char>),
    /// An integer.
    Integer(i32),
    /// Null.
    Null,
}

impl View for Value {
    type V = ValueView;

    open spec fn view(&self) -> ValueView {
        match self {
            Value::Varchar(s) => ValueView::Varchar(s@),
            Value::Integer(i) => ValueView::Integer(*i),
            Value::Null(_) => ValueView::Null,
        }
    }
}

/// Whether a column of domain `kind` takes `v`: null always, otherwise a
/// value of its own domain.
pub open spec fn domain_accepts(kind: TypeKind, v: ValueView) -> bool {
    match v {
        ValueView::Varchar(_) => kind == TypeKind::Varchar,
        ValueView::Integer(_) => kind == TypeKind::Integer,
        ValueView::Null => true,
    }
}

/// Whether `v` is a non-null value of domain `kind`.
pub open spec fn in_domain(kind: TypeKind, v: ValueView) -> bool {
    domain_accepts(kind, v) && !(v is Null)
}

/// The digit `d`, for `0 <= d < 10`.
pub open spec fn digit_char(d: int) -> char {
    if d == 0 {
        '0'
    } else if d == 1 {
        '1'
    } else if d == 2 {
        '2'
    } else if d == 3 {
        '3'
    } else if d == 4 {
        '4'
    } else if d == 5 {
        '5'
    } else if d == 6 {
        '6'
    } else if d == 7 {
        '7'
    } else if d == 8 {
        '8'
    } else {
        '9'
    }
}

/// The decimal digits of `n`, without leading zeros.
pub open spec fn natural_text(n: nat) -> Seq<char>
    decreases n,
{
    if n < 10 {
        seq![digit_char(n as int)]
    } else {
        natural_text(n / 10) + seq![digit_char((n % 10) as int)]
    }
}

/// The decimal text of `n`, with a leading `-` when it is negative.
pub open spec fn decimal_text(n: int) -> Seq<char> {
    if n < 0 {
        seq!['-'] + natural_text((-n) as nat)
    } else {
        natural_text(n as nat)
    }
}

/// How a value reads: text as itself, integers in decimal, null as `null`.
pub open spec fn value_text(v: ValueView) -> Seq<char> {
    match v {
        ValueView::Varchar(s) => s,
        ValueView::Integer(i) => decimal_text(i as int),
        ValueView::Null => seq!['n', 'u', 'l', 'l'],
    }
}

/// Relies on `ToString for i32`, through its `Display`: the decimal digits,
/// led by `-` for a negative number.
#[verifier::external_body]
fn integer_text(i: i32) -> (r: String)
    ensures
        r@ == decimal_text(i as int),
{
    i.to_string()
}

impl Value {
    /// How this value reads.
    pub fn to_string(&self) -> (r: String)
        ensures
            r@ == value_text(self@),
    {
        match self {
            Value::Varchar(s) => s.clone(),
            Value::Integer(i) => integer_text(*i),
            Value::Null(n) => n.to_string(),
        }
    }

    /// A copy of this value.
    pub fn copy_value(&self) -> (r: Value)
        ensures
            r@ == self@,
    {
        match self {
            Value::Varchar(s) => Value::Varchar(s.clone()),
            Value::Integer(i) => Value::Integer(*i),
            Value::Null(n) => Value::Null(*n),
        }
    }

    /// Whether this value is null.
    pub fn is_null(&self) -> (r: bool)
        ensures
            r == (self@ is Null),
    {
        matches!(self, Value::Null(_))
    }
}

impl From<i32> for Value {
    fn from(item: i32) -> Value {
        Value::Integer(item)
    }
}

impl vstd::std_specs::convert::FromSpecImpl<i32> for Value {
    open spec fn obeys_from_spec() -> bool {
        true
    }

    open spec fn from_spec(v: i32) -> Value {
        Value::Integer(v)
    }
}

impl From<Null> for Value {
    fn from(item: Null) -> Value {
        Value::Null(item)
    }
}

impl vstd::std_specs::convert::FromSpecImpl<Null> for Value {
    open spec fn obeys_from_spec() -> bool {
        true
    }

    open spec fn from_spec(v: Null) -> Value {
        Value::Null(v)
    }
}

impl<'a> From<&'a String> for Value {
    fn from(item: &'a String) -> Value {
        Value::Varchar(item.clone())
    }
}

impl<'a> vstd::std_specs::convert::FromSpecImpl<&'a String> for Value {
    open spec fn obeys_from_spec() -> bool {
        true
    }

    open spec fn from_spec(v: &'a String) -> Value {
        Value::Varchar(*v)
    }
}

impl<'a> From<&'a str> for Value {
    fn from(item: &'a str) -> Value {
        Value::Varchar(item.to_string())
    }
}

impl<'a> vstd::std_specs::convert::FromSpecImpl<&'a str> for Value {
    open spec fn obeys_from_spec() -> bool {
        false
    }

    open spec fn from_spec(v: &'a str) -> Value {
        Value::Null(Null)
    }
}

/// Something that can be read as a [`Value`].
pub trait AsValue {
    /// The value it stands for.
    spec fn value_view(&self) -> ValueView;

    fn as_datum_ref(&self) -> (r: Value)
        ensures
            r@ == self.value_view(),
    ;
}

impl AsValue for Value {
    open spec fn value_view(&self) -> ValueView {
        self@
    }

    fn as_datum_ref(&self) -> (r: Value) {
        self.copy_value()
    }
}

impl AsValue for i32 {
    open spec fn value_view(&self) -> ValueView {
        ValueView::Integer(*self)
    }

    fn as_datum_ref(&self) -> (r: Value) {
        Value::Integer(*self)
    }
}

impl AsValue for Null {
    open spec fn value_view(&self) -> ValueView {
        ValueView::Null
    }

    fn as_datum_ref(&self) -> (r: Value) {
        Value::Null(*self)
    }
}

impl<'a> AsValue for &'a str {
    open spec fn value_view(&self) -> ValueView {
        ValueView::Varchar(self@)
    }

    fn as_datum_ref(&self) -> (r: Value) {
        Value::Varchar((*self).to_string())
    }
}

} // verus!
