//! The value model: a closed, recursive sum type over every wire-level value
//! shape, its mathematical abstraction, and the command constructors.

use vstd::prelude::*;

verus! {

broadcast use vstd::std_specs::vec::group_vec_axioms;

/// The mathematical form of a wire value: payloads are byte sequences,
/// integers are unbounded, and an array is a sequence of values.
pub enum ValueModel {
    Str(Seq<u8>),
    Bulk(Seq<u8>),
    Array(Seq<ValueModel>),
    Int(int),
    Nil,
    Error(Seq<u8>),
}

/// A wire-level value: a simple string, a binary-safe bulk string, an array
/// of values, a signed 64-bit integer, the distinguished null, or an error
/// message. Payloads are bytes; bulk strings are binary-safe, the
/// line-oriented variants must not embed the line terminator.
#[derive(Debug, PartialEq, Eq)]
pub enum RedisValue {
    Str(Vec<u8>),
    Bulk(Vec<u8>),
    Array(Vec<RedisValue>),
    Int(i64),
    Nil,
    Error(Vec<u8>),
}

/// The models of a sequence of values, element by element.
pub open spec fn elems_view(es: Seq<RedisValue>) -> Seq<ValueModel>
    decreases es,
{
    Seq::new(
        es.len(),
        |i: int|
            if 0 <= i < es.len() {
                es[i]@
            } else {
                ValueModel::Nil
            },
    )
}

impl View for RedisValue {
    type V = ValueModel;

    open spec fn view(&self) -> ValueModel
        decreases self,
    {
        match self {
            RedisValue::Str(s) => ValueModel::Str(s@),
            RedisValue::Bulk(s) => ValueModel::Bulk(s@),
            RedisValue::Array(es) => ValueModel::Array(elems_view(es@)),
            RedisValue::Int(i) => ValueModel::Int(*i as int),
            RedisValue::Nil => ValueModel::Nil,
            RedisValue::Error(s) => ValueModel::Error(s@),
        }
    }
}

impl DeepView for RedisValue {
    type V = ValueModel;

    open spec fn deep_view(&self) -> ValueModel {
        self.view()
    }
}

/// A line-oriented payload must not contain the carriage return that ends a
/// wire line; the decoder can then never misread it.
pub open spec fn line_ok(s: Seq<u8>) -> bool {
    forall|i: int| 0 <= i < s.len() ==> s[i] != 13u8
}

/// Well-formedness of a model value: line-oriented payloads are clean and
/// integers fit the signed 64-bit wire range. Every value the decoder
/// produces, and the view of every value exec code can build, satisfies it.
pub open spec fn wf(v: ValueModel) -> bool
    decreases v,
{
    match v {
        ValueModel::Str(s) => line_ok(s),
        ValueModel::Error(s) => line_ok(s),
        ValueModel::Bulk(_) => true,
        ValueModel::Int(i) => i64::MIN <= i <= i64::MAX,
        ValueModel::Nil => true,
        ValueModel::Array(es) => forall|i: int| 0 <= i < es.len() ==> wf(#[trigger] es[i]),
    }
}

/// An outgoing command: the two request shapes the tool issues, or a batch
/// of commands for pipelining.
#[derive(Debug, PartialEq, Eq)]
pub enum Command {
    Get(Vec<u8>),
    Put(Vec<u8>, Vec<u8>),
    Pipeline(Vec<Command>),
}

impl RedisValue {
    /// Builds the canonical shape of an outgoing command: an array with one
    /// bulk string per argument token. An empty argument sequence produces
    /// the null value, not an empty array.
    pub fn from_vec(v: Vec<Vec<u8>>) -> (r: RedisValue)
        ensures
            v@.len() == 0 ==> r == RedisValue::Nil,
            v@.len() > 0 ==> r@ == ValueModel::Array(
                Seq::new(v@.len(), |i: int| ValueModel::Bulk(v@[i]@)),
            ),
    {
        if v.len() == 0 {
            RedisValue::Nil
        } else {
            let ghost orig = v@;
            let mut src = v;
            let mut out: Vec<RedisValue> = Vec::new();
            while src.len() > 0
                invariant
                    out@.len() + src@.len() == orig.len(),
                    forall|j: int| 0 <= j < out@.len() ==>
                        #[trigger] out@[j] == RedisValue::Bulk(orig[j]),
                    src@ == orig.skip(out@.len() as int),
                decreases src@.len(),
            {
                let a = src.remove(0);
                proof {
                    assert(a == orig[out@.len() as int]);
                    assert(src@ =~= orig.skip(out@.len() as int + 1));
                }
                out.push(RedisValue::Bulk(a));
            }
            let r = RedisValue::Array(out);
            proof {
                let es = elems_view(out@);
                assert forall|i: int| 0 <= i < es.len() implies es[i] == ValueModel::Bulk(
                    orig[i]@,
                ) by {
                    assert(out@[i] == RedisValue::Bulk(orig[i]));
                }
                assert(es =~= Seq::new(orig.len(), |i: int| ValueModel::Bulk(orig[i]@)));
            }
            r
        }
    }

    /// Turns a single request into its wire value; batches are assembled by
    /// their parts, so a pipeline is not accepted here.
    pub fn from(cmd: Command) -> (r: RedisValue)
        requires
            !(cmd is Pipeline),
        ensures
            cmd matches Command::Get(k) ==> r@ == ValueModel::Array(
                seq![ValueModel::Bulk(k@)],
            ),
            cmd matches Command::Put(k, val) ==> r@ == ValueModel::Array(
                seq![ValueModel::Bulk(k@), ValueModel::Bulk(val@)],
            ),
    {
        match cmd {
            Command::Get(key) => {
                let ghost kv = key@;
                let mut args: Vec<Vec<u8>> = Vec::new();
                args.push(key);
                let ghost ga = args@;
                let r = RedisValue::from_vec(args);
                proof {
                    assert(Seq::new(ga.len(), |i: int| ValueModel::Bulk(ga[i]@)) =~= seq![
                        ValueModel::Bulk(kv),
                    ]);
                }
                r
            },
            Command::Put(key, val) => {
                let ghost kv = key@;
                let ghost vv = val@;
                let mut args: Vec<Vec<u8>> = Vec::new();
                args.push(key);
                args.push(val);
                let ghost ga = args@;
                let r = RedisValue::from_vec(args);
                proof {
                    assert(Seq::new(ga.len(), |i: int| ValueModel::Bulk(ga[i]@)) =~= seq![
                        ValueModel::Bulk(kv),
                        ValueModel::Bulk(vv),
                    ]);
                }
                r
            },
            Command::Pipeline(_) => {
                // excluded by the precondition
                proof {
                    assert(false);
                }
                RedisValue::Nil
            },
        }
    }
}

} // verus!
