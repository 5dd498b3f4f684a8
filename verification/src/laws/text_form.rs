//! The offsets in the text form of a node are their decimal numerals.
use vstd::prelude::*;
use crate::grammar::is_digit;
use crate::node::NodeModel;
use crate::render::{children_text, decimal, key_text, kind_name, node_text, value_part_text};

verus! {

/// The number that the decimal digits `t` write, each digit worth its code
/// less the code of `0`.
pub open spec fn numeral_value(t: Seq<char>) -> int
    decreases t.len(),
{
    if t.len() == 0 {
        0
    } else {
        numeral_value(t.drop_last()) * 10 + ((t.last() as u32) as int - ('0' as u32) as int)
    }
}

/// `t` is the usual decimal numeral of `n`: digits only, no leading zero but
/// for zero itself, and read back in base ten it is `n`.
pub open spec fn is_numeral_of(t: Seq<char>, n: int) -> bool {
    &&& t.len() >= 1
    &&& forall|k: int| 0 <= k < t.len() ==> is_digit(#[trigger] t[k])
    &&& (t.len() > 1 ==> t[0] != '0')
    &&& numeral_value(t) == n
}

/// The digits written for an offset are its decimal numeral.
pub proof fn law_decimal_numeral(n: nat)
    ensures
        is_numeral_of(decimal(n), n as int),
    decreases n,
{
    if n >= 10 {
        let q = n / 10;
        let r = n % 10;
        law_decimal_numeral(q);
        let t = decimal(n);
        assert(t.drop_last() =~= decimal(q));
        assert(t.last() == crate::render::digit_char(r));
        assert((crate::render::digit_char(r) as u32) as int - ('0' as u32) as int == r);
        assert(q * 10 + r == n) by (nonlinear_arith)
            requires
                q == n / 10,
                r == n % 10,
        ;
        assert(t[0] == decimal(q)[0]);
        assert forall|k: int| 0 <= k < t.len() implies is_digit(#[trigger] t[k]) by {
            if k < t.len() - 1 {
                assert(t[k] == decimal(q)[k]);
            }
        }
        if q < 10 {
            assert(decimal(q) =~= seq![crate::render::digit_char(q)]);
        } else {
            law_decimal_numeral(q / 10);
            assert(decimal(q).len() > 1);
        }
        assert(numeral_value(t) == numeral_value(decimal(q)) * 10 + r);
    } else {
        assert((crate::render::digit_char(n) as u32) as int - ('0' as u32) as int == n);
        let t = decimal(n);
        assert(t =~= seq![crate::render::digit_char(n)]);
        assert(t.drop_last() =~= Seq::<char>::empty());
        assert(numeral_value(t.drop_last()) == 0);
        assert(t.last() == crate::render::digit_char(n));
    }
}

/// The text form of a node ends with `start: `, the numeral of its start,
/// `, end: `, the numeral of its end, and ` }`.
pub proof fn law_text_form_span(m: NodeModel)
    requires
        m.start >= 0,
        m.end >= 0,
    ensures
        exists|p: Seq<char>, d1: Seq<char>, d2: Seq<char>|
            node_text(m) == p + "start: "@ + d1 + ", "@ + "end: "@ + d2 + " }"@ && is_numeral_of(
                d1,
                m.start,
            ) && is_numeral_of(d2, m.end),
{
    let p = "{ kind: "@ + kind_name(m.kind) + ", "@ + key_text(m) + value_part_text(m)
        + children_text(m);
    let d1 = decimal(m.start as nat);
    let d2 = decimal(m.end as nat);
    law_decimal_numeral(m.start as nat);
    law_decimal_numeral(m.end as nat);
    assert(node_text(m) =~= p + "start: "@ + d1 + ", "@ + "end: "@ + d2 + " }"@);
}

} // verus!
