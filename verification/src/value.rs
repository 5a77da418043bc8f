use vstd::prelude::*;

verus! {

/// The mathematical shape of one decoded value.
///
/// Text is a sequence of characters, collections are sequences of
/// nested values, and every fixed-width number is widened to `int`.
/// A `Float64` carries the raw big-endian bits of the IEEE-754 double,
/// since the library itself never computes with the float.
pub enum SpecValue {
    Boolean(bool),
    TinyInt(int),
    TinyText(Seq<char>),
    String(Seq<char>),
    TinyList(Seq<SpecValue>),
    TinyMap(Seq<(SpecValue, SpecValue)>),
    List(Seq<SpecValue>),
    SizedMap(Seq<(SpecValue, SpecValue)>),
    Struct { tag: int, fields: Seq<SpecValue> },
    Int8(int),
    Int16(int),
    Int32(int),
    Int64(int),
    Float64(int),
    Unreadable,
}

/// One decoded unit: a scalar, a piece of text, or a collection of
/// further values. `Unreadable` stands in a slot whose marker byte is
/// not part of the format, or whose text payload is not valid UTF-8.
///
/// `Float64` holds the eight payload bytes as big-endian bits; callers
/// that want the floating-point number interpret the bits themselves.
#[derive(Debug)]
pub enum Value {
    Boolean(bool),
    TinyInt(u8),
    TinyText(std::string::String),
    String(std::string::String),
    TinyList(Vec<Value>),
    TinyMap(Vec<(Value, Value)>),
    List(Vec<Value>),
    SizedMap(Vec<(Value, Value)>),
    Struct(PackStreamStruct),
    Int8(i8),
    Int16(i16),
    Int32(i32),
    Int64(i64),
    Float64(u64),
    Unreadable,
}

/// A tagged record: an opaque application-defined tag and the decoded
/// field values in encounter order.
#[derive(Debug)]
pub struct PackStreamStruct {
    pub sig: u8,
    pub val: Box<Vec<Value>>,
}

impl PackStreamStruct {
    pub fn new(sig: u8, val: Box<Vec<Value>>) -> (s: PackStreamStruct)
        ensures
            s.sig == sig,
            s.val == val,
    {
        PackStreamStruct { sig, val }
    }
}

/// Why a decode step failed: a read needed more bytes than remain.
#[derive(Debug, PartialEq, Eq, Structural)]
pub enum UnpackError {
    EndOfInput,
}

pub type PackStreamResult<T> = Result<T, UnpackError>;

impl View for Value {
    type V = SpecValue;

    open spec fn view(&self) -> SpecValue
        decreases self, 1nat,
    {
        match self {
            Value::Boolean(b) => SpecValue::Boolean(*b),
            Value::TinyInt(n) => SpecValue::TinyInt(*n as int),
            Value::TinyText(s) => SpecValue::TinyText(s@),
            Value::String(s) => SpecValue::String(s@),
            Value::TinyList(items) => {
                proof {
                    assert(decreases_to!(items => items@));
                }
                SpecValue::TinyList(views(items@))
            },
            Value::TinyMap(pairs) => {
                proof {
                    assert(decreases_to!(pairs => pairs@));
                }
                SpecValue::TinyMap(pair_views(pairs@))
            },
            Value::List(items) => {
                proof {
                    assert(decreases_to!(items => items@));
                }
                SpecValue::List(views(items@))
            },
            Value::SizedMap(pairs) => {
                proof {
                    assert(decreases_to!(pairs => pairs@));
                }
                SpecValue::SizedMap(pair_views(pairs@))
            },
            Value::Struct(s) => {
                proof {
                    assert(decreases_to!(s.val => s.val@));
                }
                SpecValue::Struct { tag: s.sig as int, fields: views(s.val@) }
            },
            Value::Int8(n) => SpecValue::Int8(*n as int),
            Value::Int16(n) => SpecValue::Int16(*n as int),
            Value::Int32(n) => SpecValue::Int32(*n as int),
            Value::Int64(n) => SpecValue::Int64(*n as int),
            Value::Float64(bits) => SpecValue::Float64(*bits as int),
            Value::Unreadable => SpecValue::Unreadable,
        }
    }
}

/// The views of a sequence of decoded values, in order.
pub open spec fn views(s: Seq<Value>) -> Seq<SpecValue>
    decreases s, 0nat,
{
    if s.len() == 0 {
        Seq::empty()
    } else {
        seq![s[0]@] + views(s.subrange(1, s.len() as int))
    }
}

/// The views of a sequence of decoded key/value pairs, in order.
pub open spec fn pair_views(s: Seq<(Value, Value)>) -> Seq<(SpecValue, SpecValue)>
    decreases s, 0nat,
{
    if s.len() == 0 {
        Seq::empty()
    } else {
        proof {
            assert(decreases_to!(s => s[0]));
        }
        seq![(s[0].0@, s[0].1@)] + pair_views(s.subrange(1, s.len() as int))
    }
}

/// `views` maps a sequence element by element.
pub proof fn lemma_views_index(s: Seq<Value>)
    ensures
        views(s).len() == s.len(),
        forall|i: int| 0 <= i < s.len() ==> views(s)[i] == #[trigger] s[i]@,
    decreases s.len(),
{
    if s.len() > 0 {
        let sub = s.subrange(1, s.len() as int);
        lemma_views_index(sub);
        assert(views(s) == seq![s[0]@] + views(sub));
        assert forall|i: int| 0 <= i < s.len() implies views(s)[i] == #[trigger] s[i]@ by {
            if i > 0 {
                assert(sub[i - 1] == s[i]);
                assert(views(sub)[i - 1] == sub[i - 1]@);
                assert(views(s)[i] == views(sub)[i - 1]);
            }
        }
    }
}

/// Appending one value appends its view.
pub proof fn lemma_views_push(s: Seq<Value>, v: Value)
    ensures
        views(s.push(v)) == views(s).push(v@),
{
    lemma_views_index(s);
    lemma_views_index(s.push(v));
    assert forall|i: int| 0 <= i < s.len() + 1 implies views(s.push(v))[i] == views(s).push(v@)[i] by {
        assert(views(s.push(v))[i] == s.push(v)[i]@);
        if i < s.len() {
            assert(s.push(v)[i] == s[i]);
            assert(views(s)[i] == s[i]@);
        } else {
            assert(s.push(v)[i] == v);
        }
    }
    assert(views(s.push(v)) =~= views(s).push(v@));
}

/// `pair_views` maps a sequence of pairs element by element.
pub proof fn lemma_pair_views_index(s: Seq<(Value, Value)>)
    ensures
        pair_views(s).len() == s.len(),
        forall|i: int| 0 <= i < s.len() ==> pair_views(s)[i] == (#[trigger] s[i].0@, s[i].1@),
    decreases s.len(),
{
    if s.len() > 0 {
        let sub = s.subrange(1, s.len() as int);
        lemma_pair_views_index(sub);
        assert(pair_views(s) == seq![(s[0].0@, s[0].1@)] + pair_views(sub));
        assert forall|i: int| 0 <= i < s.len() implies pair_views(s)[i] == (
        #[trigger] s[i].0@,
        s[i].1@,
        ) by {
            if i > 0 {
                assert(sub[i - 1] == s[i]);
                assert(pair_views(sub)[i - 1] == (sub[i - 1].0@, sub[i - 1].1@));
                assert(pair_views(s)[i] == pair_views(sub)[i - 1]);
            }
        }
    }
}

/// Appending one pair appends its view.
pub proof fn lemma_pair_views_push(s: Seq<(Value, Value)>, k: Value, v: Value)
    ensures
        pair_views(s.push((k, v))) == pair_views(s).push((k@, v@)),
{
    lemma_pair_views_index(s);
    lemma_pair_views_index(s.push((k, v)));
    assert forall|i: int| 0 <= i < s.len() + 1 implies pair_views(s.push((k, v)))[i] == pair_views(
        s,
    ).push((k@, v@))[i] by {
        assert(pair_views(s.push((k, v)))[i] == (s.push((k, v))[i].0@, s.push((k, v))[i].1@));
        if i < s.len() {
            assert(s.push((k, v))[i] == s[i]);
            assert(pair_views(s)[i] == (s[i].0@, s[i].1@));
        } else {
            assert(s.push((k, v))[i] == (k, v));
        }
    }
    assert(pair_views(s.push((k, v))) =~= pair_views(s).push((k@, v@)));
}

} // verus!
