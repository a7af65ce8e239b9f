//! JSON values.
use vstd::prelude::*;

verus! {

/// A JSON number: an integer, or the text of any other number.
#[derive(Debug, PartialEq, Eq)]
pub enum Number {
    /// An integer that is not negative.
    PosInt(u64),
    /// A negative integer.
    NegInt(i64),
    /// A number with a fraction or an exponent, or beyond the integers above.
    Float(String),
}

/// A JSON value.
#[derive(Debug, PartialEq, Eq)]
pub enum Value {
    Null,
    Bool(bool),
    Number(Number),
    Text(String),
    Array(Vec<Value>),
    /// The members, in order; of two with one name the first counts.
    Object(Vec<(String, Value)>),
}

/// The mathematical model of a `Value`.
pub enum Json {
    Null,
    Bool(bool),
    PosInt(u64),
    NegInt(i64),
    Float(Seq<char>),
    Text(Seq<char>),
    Array(Seq<Json>),
    Object(Seq<(Seq<char>, Json)>),
}

impl Value {
    pub open spec fn json(self) -> Json
        decreases self,
    {
        match self {
            Value::Null => Json::Null,
            Value::Bool(b) => Json::Bool(b),
            Value::Number(Number::PosInt(n)) => Json::PosInt(n),
            Value::Number(Number::NegInt(n)) => Json::NegInt(n),
            Value::Number(Number::Float(t)) => Json::Float(t@),
            Value::Text(s) => Json::Text(s@),
            Value::Array(values) => Json::Array(json_items(values@)),
            Value::Object(members) => Json::Object(json_members(members@)),
        }
    }
}

/// The models of `values`, in order.
pub open spec fn json_items(values: Seq<Value>) -> Seq<Json>
    decreases values,
{
    if values.len() == 0 {
        Seq::empty()
    } else {
        json_items(values.drop_last()).push(values[values.len() - 1].json())
    }
}

/// The models of `members`, in order.
pub open spec fn json_members(members: Seq<(String, Value)>) -> Seq<(Seq<char>, Json)>
    decreases members,
{
    if members.len() == 0 {
        Seq::empty()
    } else {
        let last = members[members.len() - 1];
        json_members(members.drop_last()).push((last.0@, last.1.json()))
    }
}

impl View for Value {
    type V = Json;

    open spec fn view(&self) -> Json {
        self.json()
    }
}

/// The first of `members` that has the name `name`.
pub open spec fn member(members: Seq<(Seq<char>, Json)>, name: Seq<char>) -> Option<Json>
    decreases members.len(),
{
    if members.len() == 0 {
        None
    } else if members[0].0 == name {
        Some(members[0].1)
    } else {
        member(members.skip(1), name)
    }
}

impl Json {
    /// The member `name`, if this is an object that has it.
    pub open spec fn get(self, name: Seq<char>) -> Option<Json> {
        match self {
            Json::Object(members) => member(members, name),
            _ => None,
        }
    }

    /// The integer, if this is one in the range of `i64`.
    pub open spec fn as_i64(self) -> Option<i64> {
        match self {
            Json::PosInt(n) if n <= i64::MAX => Some(n as i64),
            Json::NegInt(n) => Some(n),
            _ => None,
        }
    }

    /// The integer, if this is one that is not negative.
    pub open spec fn as_u64(self) -> Option<u64> {
        match self {
            Json::PosInt(n) => Some(n),
            _ => None,
        }
    }

    /// The truth value, if this is one.
    pub open spec fn as_bool(self) -> Option<bool> {
        match self {
            Json::Bool(b) => Some(b),
            _ => None,
        }
    }

    /// The text, if this is one.
    pub open spec fn as_str(self) -> Option<Seq<char>> {
        match self {
            Json::Text(t) => Some(t),
            _ => None,
        }
    }

    /// The items, if this is an array.
    pub open spec fn as_array(self) -> Option<Seq<Json>> {
        match self {
            Json::Array(items) => Some(items),
            _ => None,
        }
    }
}

/// The model of a value that may be missing.
pub open spec fn viewed(value: Option<&Value>) -> Option<Json> {
    match value {
        Some(v) => Some(v@),
        None => None,
    }
}

/// The models of `values` are those of its items, one for one.
pub broadcast proof fn lemma_json_items(values: Seq<Value>)
    ensures
        (#[trigger] json_items(values)).len() == values.len(),
        forall|i: int| 0 <= i < values.len() ==> #[trigger] json_items(values)[i] == values[i]@,
    decreases values.len(),
{
    if values.len() > 0 {
        lemma_json_items(values.drop_last());
    }
}

/// The models of `members` are those of its entries, one for one.
pub broadcast proof fn lemma_json_members(members: Seq<(String, Value)>)
    ensures
        (#[trigger] json_members(members)).len() == members.len(),
        forall|i: int|
            0 <= i < members.len() ==> #[trigger] json_members(members)[i] == (members[i].0@, members[i].1@),
    decreases members.len(),
{
    if members.len() > 0 {
        lemma_json_members(members.drop_last());
    }
}

impl Value {
    /// The member `name`, if this is an object that has it.
    pub fn get(&self, name: &str) -> (r: Option<&Value>)
        ensures
            viewed(r) == self@.get(name@),
    {
        broadcast use lemma_json_members;

        match self {
            Value::Object(members) => {
                let name_text = name.to_owned();
                let ghost all = json_members(members@);
                let mut i: usize = 0;
                proof {
                    assert(all.skip(0) == all);
                }
                while i < members.len()
                    invariant
                        *self == Value::Object(*members),
                        i <= members@.len(),
                        all == json_members(members@),
                        name_text@ == name@,
                        member(all, name@) == member(all.skip(i as int), name@),
                    decreases members@.len() - i,
                {
                    broadcast use lemma_json_members;

                    proof {
                        assert(all.skip(i as int)[0] == all[i as int]);
                        assert(all.skip(i as int).skip(1) == all.skip(i + 1));
                    }
                    if members[i].0 == name_text {
                        return Some(&members[i].1);
                    }
                    i += 1;
                }
                None
            },
            _ => None,
        }
    }

    /// The integer, if this is one in the range of `i64`.
    pub fn as_i64(&self) -> (r: Option<i64>)
        ensures
            r == self@.as_i64(),
    {
        match self {
            Value::Number(Number::PosInt(n)) => if *n <= 0x7fff_ffff_ffff_ffff {
                Some(*n as i64)
            } else {
                None
            },
            Value::Number(Number::NegInt(n)) => Some(*n),
            _ => None,
        }
    }

    /// The integer, if this is one that is not negative.
    pub fn as_u64(&self) -> (r: Option<u64>)
        ensures
            r == self@.as_u64(),
    {
        match self {
            Value::Number(Number::PosInt(n)) => Some(*n),
            _ => None,
        }
    }

    /// The truth value, if this is one.
    pub fn as_bool(&self) -> (r: Option<bool>)
        ensures
            r == self@.as_bool(),
    {
        match self {
            Value::Bool(b) => Some(*b),
            _ => None,
        }
    }

    /// The text, if this is one.
    pub fn as_str(&self) -> (r: Option<&str>)
        ensures
            match r {
                Some(t) => self@.as_str() == Some(t@),
                None => self@.as_str() is None,
            },
    {
        match self {
            Value::Text(t) => Some(t.as_str()),
            _ => None,
        }
    }

    /// The items, if this is an array.
    pub fn as_array(&self) -> (r: Option<&Vec<Value>>)
        ensures
            match r {
                Some(items) => self@.as_array() == Some(json_items(items@)),
                None => self@.as_array() is None,
            },
    {
        match self {
            Value::Array(items) => Some(items),
            _ => None,
        }
    }
}

impl Clone for Number {
    fn clone(&self) -> (r: Self)
        ensures
            r == *self,
    {
        match self {
            Number::PosInt(n) => Number::PosInt(*n),
            Number::NegInt(n) => Number::NegInt(*n),
            Number::Float(t) => Number::Float(t.clone()),
        }
    }
}

impl Clone for Value {
    fn clone(&self) -> (r: Self)
        ensures
            r@ == self@,
        decreases self,
    {
        broadcast use lemma_json_items, lemma_json_members;

        match self {
            Value::Null => Value::Null,
            Value::Bool(b) => Value::Bool(*b),
            Value::Number(n) => Value::Number(n.clone()),
            Value::Text(t) => Value::Text(t.clone()),
            Value::Array(values) => {
                let mut copy: Vec<Value> = Vec::new();
                let mut i: usize = 0;
                while i < values.len()
                    invariant
                        *self == Value::Array(*values),
                        i <= values@.len(),
                        copy@.len() == i,
                        forall|k: int| 0 <= k < i ==> (#[trigger] copy@[k])@ == values@[k]@,
                    decreases values@.len() - i,
                {
                    proof {
                        assert(decreases_to!(*self => self->Array_0));
                        assert(decreases_to!(*values => values@));
                        assert(decreases_to!(values@ => values@[i as int]));
                        assert(decreases_to!(*self => values@[i as int]));
                    }
                    copy.push(values[i].clone());
                    i += 1;
                }
                assert(json_items(copy@) == json_items(values@));
                Value::Array(copy)
            },
            Value::Object(members) => {
                let mut copy: Vec<(String, Value)> = Vec::new();
                let mut i: usize = 0;
                while i < members.len()
                    invariant
                        *self == Value::Object(*members),
                        i <= members@.len(),
                        copy@.len() == i,
                        forall|k: int|
                            0 <= k < i ==> (#[trigger] copy@[k]).0@ == members@[k].0@ && copy@[k].1@
                                == members@[k].1@,
                    decreases members@.len() - i,
                {
                    proof {
                        assert(decreases_to!(*self => self->Object_0));
                        assert(decreases_to!(*members => members@));
                        assert(decreases_to!(members@ => members@[i as int]));
                        assert(decreases_to!(members@[i as int] => members@[i as int].1));
                        assert(decreases_to!(*self => members@[i as int].1));
                    }
                    copy.push((members[i].0.clone(), members[i].1.clone()));
                    i += 1;
                }
                assert(json_members(copy@) == json_members(members@));
                Value::Object(copy)
            },
        }
    }
}

/// The member of a name is the first one that has it.
pub proof fn law_first_member(members: Seq<(Seq<char>, Json)>, name: Seq<char>, k: int)
    requires
        0 <= k < members.len(),
        members[k].0 == name,
        forall|j: int| 0 <= j < k ==> (#[trigger] members[j]).0 != name,
    ensures
        Json::Object(members).get(name) == Some(members[k].1),
    decreases k,
{
    if k > 0 {
        let rest = members.skip(1);
        assert(members[0].0 != name);
        assert forall|j: int| 0 <= j < k - 1 implies (#[trigger] rest[j]).0 != name by {
            assert(rest[j] == members[j + 1]);
        }
        law_first_member(rest, name, k - 1);
    }
}

/// What has no member of a name, and what is no object, has nothing by it.
pub proof fn law_no_member(value: Json, name: Seq<char>)
    requires
        value matches Json::Object(members) ==> forall|j: int|
            0 <= j < members.len() ==> (#[trigger] members[j]).0 != name,
    ensures
        value.get(name) is None,
    decreases value,
{
    if let Json::Object(members) = value {
        lemma_no_member(members, name);
    }
}

proof fn lemma_no_member(members: Seq<(Seq<char>, Json)>, name: Seq<char>)
    requires
        forall|j: int| 0 <= j < members.len() ==> (#[trigger] members[j]).0 != name,
    ensures
        member(members, name) is None,
    decreases members.len(),
{
    if members.len() > 0 {
        let rest = members.skip(1);
        assert forall|j: int| 0 <= j < rest.len() implies (#[trigger] rest[j]).0 != name by {
            assert(rest[j] == members[j + 1]);
        }
        lemma_no_member(rest, name);
    }
}

/// A value is read as what it is and as nothing else: integers in the range
/// that is asked for, truth values, texts, arrays.
pub proof fn law_read_as_it_is(value: Json, n: u64, m: i64, b: bool, t: Seq<char>, items: Seq<Json>)
    ensures
        value.as_i64() == Some(m) <==> value == Json::NegInt(m) || (m >= 0 && value == Json::PosInt(
            m as u64,
        )),
        value.as_u64() == Some(n) <==> value == Json::PosInt(n),
        value.as_bool() == Some(b) <==> value == Json::Bool(b),
        value.as_str() == Some(t) <==> value == Json::Text(t),
        value.as_array() == Some(items) <==> value == Json::Array(items),
{
}

/// The model of a value holds what the value holds.
pub proof fn law_model_of_value(
    n: u64,
    m: i64,
    b: bool,
    t: String,
    items: Vec<Value>,
    members: Vec<(String, Value)>,
    k: int,
)
    ensures
        Value::Null@ == Json::Null,
        Value::Bool(b)@ == Json::Bool(b),
        Value::Number(Number::PosInt(n))@ == Json::PosInt(n),
        Value::Number(Number::NegInt(m))@ == Json::NegInt(m),
        Value::Number(Number::Float(t))@ == Json::Float(t@),
        Value::Text(t)@ == Json::Text(t@),
        Value::Array(items)@->Array_0.len() == items@.len(),
        0 <= k < items@.len() ==> Value::Array(items)@->Array_0[k] == items@[k]@,
        Value::Object(members)@->Object_0.len() == members@.len(),
        0 <= k < members@.len() ==> Value::Object(members)@->Object_0[k] == (
            members@[k].0@,
            members@[k].1@,
        ),
{
    lemma_json_items(items@);
    lemma_json_members(members@);
}

} // verus!
