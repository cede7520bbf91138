//! The human-readable rendering of a value, distinct from its wire
//! encoding: text payloads as themselves, integers and errors with a
//! marker, arrays as a 1-indexed enumeration with one element per line.

use vstd::prelude::*;
use crate::value::{RedisValue, ValueModel, elems_view};
use crate::num::dec_int;
use crate::codec::{push_all, push_int, push_len};

verus! {

broadcast use vstd::std_specs::vec::group_vec_axioms;

/// The bytes of the marker `(integer) `.
pub open spec fn lit_integer() -> Seq<u8> {
    seq![40u8, 105u8, 110u8, 116u8, 101u8, 103u8, 101u8, 114u8, 41u8, 32u8]
}

/// The bytes of `(nil)`.
pub open spec fn lit_nil() -> Seq<u8> {
    seq![40u8, 110u8, 105u8, 108u8, 41u8]
}

/// The bytes of the marker `(error) `.
pub open spec fn lit_error() -> Seq<u8> {
    seq![40u8, 101u8, 114u8, 114u8, 111u8, 114u8, 41u8, 32u8]
}

/// The bytes of `(empty array)`.
pub open spec fn lit_empty_array() -> Seq<u8> {
    seq![40u8, 101u8, 109u8, 112u8, 116u8, 121u8, 32u8, 97u8, 114u8, 114u8, 97u8, 121u8, 41u8]
}

/// The rendered form of a value. The same enumeration rule applies at every
/// nesting depth.
pub open spec fn spec_render(v: ValueModel) -> Seq<u8>
    decreases v, 0int,
{
    match v {
        ValueModel::Str(s) => s,
        ValueModel::Bulk(s) => s,
        ValueModel::Int(i) => lit_integer() + dec_int(i),
        ValueModel::Nil => lit_nil(),
        ValueModel::Error(s) => lit_error() + s,
        ValueModel::Array(es) => if es.len() == 0 {
            lit_empty_array()
        } else {
            spec_render_items(es, 0)
        },
    }
}

/// The rendered items from position `i` on: each as `N) <element>` with its
/// 1-based index, separated by single newlines.
pub open spec fn spec_render_items(es: Seq<ValueModel>, i: int) -> Seq<u8>
    decreases es, es.len() - i,
{
    if i < 0 || i >= es.len() {
        Seq::empty()
    } else {
        (if i > 0 {
            seq![10u8]
        } else {
            Seq::empty()
        }) + dec_int(i + 1) + seq![41u8, 32u8] + spec_render(es[i]) + spec_render_items(es, i + 1)
    }
}

impl RedisValue {
    /// Renders the value in its human-readable, line-oriented form.
    #[verifier::loop_isolation(false)]
    pub fn render(&self) -> (r: Vec<u8>)
        ensures
            r@ == spec_render(self@),
        decreases self,
    {
        let mut out: Vec<u8> = Vec::new();
        match self {
            RedisValue::Str(s) => {
                push_all(&mut out, s);
                proof {
                    assert(out@ =~= s@);
                }
            },
            RedisValue::Bulk(s) => {
                push_all(&mut out, s);
                proof {
                    assert(out@ =~= s@);
                }
            },
            RedisValue::Int(i) => {
                out.push(40);
                out.push(105);
                out.push(110);
                out.push(116);
                out.push(101);
                out.push(103);
                out.push(101);
                out.push(114);
                out.push(41);
                out.push(32);
                proof {
                    assert(out@ =~= lit_integer());
                }
                push_int(&mut out, *i);
                proof {
                    assert(out@ =~= lit_integer() + dec_int(*i as int));
                }
            },
            RedisValue::Nil => {
                out.push(40);
                out.push(110);
                out.push(105);
                out.push(108);
                out.push(41);
                proof {
                    assert(out@ =~= lit_nil());
                }
            },
            RedisValue::Error(s) => {
                out.push(40);
                out.push(101);
                out.push(114);
                out.push(114);
                out.push(111);
                out.push(114);
                out.push(41);
                out.push(32);
                proof {
                    assert(out@ =~= lit_error());
                }
                push_all(&mut out, s);
            },
            RedisValue::Array(es) => {
                if es.len() == 0 {
                    out.push(40);
                    out.push(101);
                    out.push(109);
                    out.push(112);
                    out.push(116);
                    out.push(121);
                    out.push(32);
                    out.push(97);
                    out.push(114);
                    out.push(114);
                    out.push(97);
                    out.push(121);
                    out.push(41);
                    proof {
                        assert(out@ =~= lit_empty_array());
                        assert(elems_view(es@).len() == 0);
                    }
                } else {
                    let ghost evs = elems_view(es@);
                    proof {
                        assert(out@ + spec_render_items(evs, 0) =~= spec_render_items(evs, 0));
                    }
                    let mut j: usize = 0;
                    while j < es.len()
                        invariant
                            j <= es@.len(),
                            evs == elems_view(es@),
                            out@ + spec_render_items(evs, j as int) == spec_render_items(evs, 0),
                        decreases es@.len() - j,
                    {
                        let ghost pre = out@;
                        if j > 0 {
                            out.push(10);
                        }
                        push_len(&mut out, j + 1);
                        out.push(41);
                        out.push(32);
                        proof {
                            assert(decreases_to!(*es => es@[j as int]));
                            assert(decreases_to!(self => es@[j as int]));
                        }
                        let w = es[j].render();
                        push_all(&mut out, &w);
                        proof {
                            let sep: Seq<u8> = if j > 0 {
                                seq![10u8]
                            } else {
                                Seq::empty()
                            };
                            assert(evs[j as int] == es@[j as int]@);
                            assert(w@ == spec_render(evs[j as int]));
                            assert(spec_render_items(evs, j as int) == sep + dec_int(
                                j as int + 1,
                            ) + seq![41u8, 32u8] + spec_render(evs[j as int]) + spec_render_items(
                                evs,
                                j as int + 1,
                            ));
                            assert(out@ =~= pre + (sep + dec_int(j as int + 1) + seq![41u8, 32u8]
                                + spec_render(evs[j as int])));
                            assert(out@ + spec_render_items(evs, j as int + 1) =~= pre
                                + spec_render_items(evs, j as int));
                        }
                        j = j + 1;
                    }
                    proof {
                        assert(spec_render_items(evs, es@.len() as int) == Seq::<u8>::empty());
                        assert(out@ + Seq::<u8>::empty() =~= out@);
                        assert(evs.len() == es@.len());
                    }
                }
            },
        }
        out
    }
}

} // verus!
