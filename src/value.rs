//! Dynamic values, their mathematical model and their total order.
use vstd::prelude::*;

verus! {

/// The mathematical model of a `DataValue`.
pub enum Val {
    Null,
    Bool(bool),
    Int(int),
    Str(Seq<char>),
    Entity(nat),
    Bot,
}

/// A dynamic value. `Null` is the least value and `Bot` the greatest: they stand
/// for open lower and upper bounds.
#[derive(Debug, PartialEq)]
pub enum DataValue {
    Null,
    Bool(bool),
    Int(i64),
    Str(String),
    Entity(u64),
    Bot,
}

impl View for DataValue {
    type V = Val;

    open spec fn view(&self) -> Val {
        match self {
            DataValue::Null => Val::Null,
            DataValue::Bool(b) => Val::Bool(*b),
            DataValue::Int(i) => Val::Int(*i as int),
            DataValue::Str(s) => Val::Str(s@),
            DataValue::Entity(e) => Val::Entity(*e as nat),
            DataValue::Bot => Val::Bot,
        }
    }
}

/// Position of a value's kind in the order of kinds.
pub open spec fn kind_rank(v: Val) -> int {
    match v {
        Val::Null => 0,
        Val::Bool(_) => 1,
        Val::Int(_) => 2,
        Val::Str(_) => 3,
        Val::Entity(_) => 4,
        Val::Bot => 5,
    }
}

/// Lexicographic order on character sequences, compared from position `i` on.
pub open spec fn str_lt_from(a: Seq<char>, b: Seq<char>, i: int) -> bool
    decreases a.len() - i,
{
    if i < 0 || i >= a.len() {
        0 <= i < b.len()
    } else if i >= b.len() {
        false
    } else if a[i] != b[i] {
        (a[i] as u32) < (b[i] as u32)
    } else {
        str_lt_from(a, b, i + 1)
    }
}

/// Strict total order on values.
pub open spec fn val_lt(a: Val, b: Val) -> bool {
    if kind_rank(a) != kind_rank(b) {
        kind_rank(a) < kind_rank(b)
    } else {
        match (a, b) {
            (Val::Bool(x), Val::Bool(y)) => !x && y,
            (Val::Int(x), Val::Int(y)) => x < y,
            (Val::Str(x), Val::Str(y)) => str_lt_from(x, y, 0),
            (Val::Entity(x), Val::Entity(y)) => x < y,
            _ => false,
        }
    }
}

pub open spec fn val_le(a: Val, b: Val) -> bool {
    a == b || val_lt(a, b)
}

/// `a` lies in the closed interval from `lo` to `hi`.
pub open spec fn val_within(a: Val, lo: Val, hi: Val) -> bool {
    val_le(lo, a) && val_le(a, hi)
}

fn str_eq(a: &String, b: &String) -> (r: bool)
    ensures
        r == (a@ == b@),
{
    let sa = a.as_str();
    let sb = b.as_str();
    let la = sa.unicode_len();
    let lb = sb.unicode_len();
    if la != lb {
        return false;
    }
    let mut i: usize = 0;
    while i < la
        invariant
            la == a@.len(),
            lb == b@.len(),
            la == lb,
            sa@ == a@,
            sb@ == b@,
            i <= la,
            forall|j: int| 0 <= j < i ==> a@[j] == b@[j],
        decreases la - i,
    {
        if sa.get_char(i) != sb.get_char(i) {
            return false;
        }
        i = i + 1;
    }
    assert(a@ =~= b@);
    true
}

fn str_lt(a: &String, b: &String) -> (r: bool)
    ensures
        r == str_lt_from(a@, b@, 0),
{
    let sa = a.as_str();
    let sb = b.as_str();
    let la = sa.unicode_len();
    let lb = sb.unicode_len();
    let mut i: usize = 0;
    while i < la && i < lb
        invariant
            la == a@.len(),
            lb == b@.len(),
            sa@ == a@,
            sb@ == b@,
            i <= la,
            i <= lb,
            str_lt_from(a@, b@, 0) == str_lt_from(a@, b@, i as int),
        decreases la - i,
    {
        let ca = sa.get_char(i);
        let cb = sb.get_char(i);
        if ca != cb {
            return (ca as u32) < (cb as u32);
        }
        i = i + 1;
    }
    i < lb
}

impl DataValue {
    /// A copy of the value.
    pub fn dup(&self) -> (r: DataValue)
        ensures
            r@ == self@,
            r == *self,
    {
        match self {
            DataValue::Null => DataValue::Null,
            DataValue::Bool(b) => DataValue::Bool(*b),
            DataValue::Int(i) => DataValue::Int(*i),
            DataValue::Str(s) => DataValue::Str(s.clone()),
            DataValue::Entity(e) => DataValue::Entity(*e),
            DataValue::Bot => DataValue::Bot,
        }
    }

    /// Equality of values.
    pub fn same_as(&self, other: &DataValue) -> (r: bool)
        ensures
            r == (self@ == other@),
    {
        match (self, other) {
            (DataValue::Null, DataValue::Null) => true,
            (DataValue::Bool(x), DataValue::Bool(y)) => *x == *y,
            (DataValue::Int(x), DataValue::Int(y)) => *x == *y,
            (DataValue::Str(x), DataValue::Str(y)) => str_eq(x, y),
            (DataValue::Entity(x), DataValue::Entity(y)) => *x == *y,
            (DataValue::Bot, DataValue::Bot) => true,
            _ => false,
        }
    }

    fn rank(&self) -> (r: u8)
        ensures
            r as int == kind_rank(self@),
    {
        match self {
            DataValue::Null => 0,
            DataValue::Bool(_) => 1,
            DataValue::Int(_) => 2,
            DataValue::Str(_) => 3,
            DataValue::Entity(_) => 4,
            DataValue::Bot => 5,
        }
    }

    /// Strict order of values.
    pub fn less_than(&self, other: &DataValue) -> (r: bool)
        ensures
            r == val_lt(self@, other@),
    {
        let ra = self.rank();
        let rb = other.rank();
        if ra != rb {
            return ra < rb;
        }
        match (self, other) {
            (DataValue::Bool(x), DataValue::Bool(y)) => !*x && *y,
            (DataValue::Int(x), DataValue::Int(y)) => *x < *y,
            (DataValue::Str(x), DataValue::Str(y)) => str_lt(x, y),
            (DataValue::Entity(x), DataValue::Entity(y)) => *x < *y,
            _ => false,
        }
    }

    /// Non-strict order of values.
    pub fn at_most(&self, other: &DataValue) -> (r: bool)
        ensures
            r == val_le(self@, other@),
    {
        self.same_as(other) || self.less_than(other)
    }

    /// The entity id that the value holds, if it is an entity.
    pub fn get_entity_id(&self) -> (r: Option<u64>)
        ensures
            r == (match self@ {
                Val::Entity(e) => Some(e as u64),
                _ => None::<u64>,
            }),
    {
        match self {
            DataValue::Entity(e) => Some(*e),
            _ => None,
        }
    }
}

/// A named logical variable.
#[derive(PartialEq, Eq, Structural, Clone, Copy, Debug)]
pub struct Symbol {
    pub id: u64,
}

} // verus!
