use vstd::prelude::*;
use crate::dataref::{DataRefHandler, GenericDataRef, SubscriptionDescriptor};
use crate::registry::{DataRefRegistry, RegistryError, descriptor_view};
use crate::value::{Value, all_digits, battery_state_of, decimal_id, digits_value, is_digit};
use vstd::utf8::encode_utf8;
use vstd::string::StringSliceAdditionalSpecFns;

verus! {

/// Request id that the client uses for its subscription.
pub const SUBSCRIBE_REQ_ID: u64 = 9998;

/// `{"req_id":`
pub open spec fn frame_head() -> Seq<u8> {
    seq![123u8, 34, 114, 101, 113, 95, 105, 100, 34, 58]
}

/// `,"type":"dataref_subscribe_values","params":{"datarefs":[`
pub open spec fn frame_middle() -> Seq<u8> {
    seq![
        44u8, 34, 116, 121, 112, 101, 34, 58, 34, 100, 97, 116, 97, 114, 101, 102, 95, 115, 117,
        98, 115, 99, 114, 105, 98, 101, 95, 118, 97, 108, 117, 101, 115, 34, 44, 34, 112, 97, 114,
        97, 109, 115, 34, 58, 123, 34, 100, 97, 116, 97, 114, 101, 102, 115, 34, 58, 91,
    ]
}

/// `]}}`
pub open spec fn frame_tail() -> Seq<u8> {
    seq![93u8, 125, 125]
}

/// `{"id":`
pub open spec fn descriptor_head() -> Seq<u8> {
    seq![123u8, 34, 105, 100, 34, 58]
}

/// `,"index":[`
pub open spec fn index_head() -> Seq<u8> {
    seq![44u8, 34, 105, 110, 100, 101, 120, 34, 58, 91]
}

/// The ASCII decimal digits of `n`, without leading zeros.
pub open spec fn decimal_text(n: nat) -> Seq<u8>
    decreases n,
{
    if n < 10 {
        seq![(48 + n) as u8]
    } else {
        decimal_text(n / 10).push((48 + n % 10) as u8)
    }
}

/// The numbers of `xs` in decimal, separated by commas.
pub open spec fn number_list_text(xs: Seq<u64>) -> Seq<u8>
    decreases xs.len(),
{
    if xs.len() == 0 {
        Seq::empty()
    } else if xs.len() == 1 {
        decimal_text(xs[0] as nat)
    } else {
        number_list_text(xs.drop_last()).push(44u8) + decimal_text(xs.last() as nat)
    }
}

/// One descriptor as a JSON object: `{"id":N}` or `{"id":N,"index":[..]}`.
pub open spec fn descriptor_text(d: SubscriptionDescriptor) -> Seq<u8> {
    descriptor_head() + decimal_text(d.id as nat) + match d.index {
        Some(v) => index_head() + number_list_text(v@) + seq![93u8, 125],
        None => seq![125u8],
    }
}

/// The descriptors of `ds` as JSON objects, separated by commas.
pub open spec fn descriptor_list_text(ds: Seq<SubscriptionDescriptor>) -> Seq<u8>
    decreases ds.len(),
{
    if ds.len() == 0 {
        Seq::empty()
    } else if ds.len() == 1 {
        descriptor_text(ds[0])
    } else {
        descriptor_list_text(ds.drop_last()).push(44u8) + descriptor_text(ds.last())
    }
}

/// The subscribe request `{"req_id":R,"type":"dataref_subscribe_values",
/// "params":{"datarefs":[..]}}` as UTF-8 text.
pub open spec fn subscribe_frame(req_id: u64, ds: Seq<SubscriptionDescriptor>) -> Seq<u8> {
    frame_head() + decimal_text(req_id as nat) + frame_middle() + descriptor_list_text(ds)
        + frame_tail()
}

proof fn lemma_decimal_text(n: nat)
    ensures
        decimal_text(n).len() >= 1,
        all_digits(decimal_text(n)),
        digits_value(decimal_text(n)) == n,
    decreases n,
{
    let t = decimal_text(n);
    if n >= 10 {
        lemma_decimal_text(n / 10);
        assert(t.drop_last() =~= decimal_text(n / 10));
        assert(t.last() == (48 + n % 10) as u8);
        assert((n / 10) * 10 + n % 10 == n) by (nonlinear_arith);
        assert(digits_value(t) == digits_value(decimal_text(n / 10)) * 10 + (t.last() - 48) as nat);
        assert forall|i: int| 0 <= i < t.len() implies is_digit(#[trigger] t[i]) by {
            if i < t.len() - 1 {
                assert(t[i] == decimal_text(n / 10)[i]);
            }
        };
    } else {
        assert(t.drop_last() =~= Seq::<u8>::empty());
        assert(digits_value(Seq::<u8>::empty()) == 0);
        assert(digits_value(t) == digits_value(t.drop_last()) * 10 + (t.last() - 48) as nat);
    }
}

/// Digits followed by a non-digit (or nothing) are read back unambiguously.
proof fn lemma_decimal_prefix(n: nat, m: nat, x: Seq<u8>, y: Seq<u8>)
    requires
        decimal_text(n) + x == decimal_text(m) + y,
        x.len() == 0 || !is_digit(x[0]),
        y.len() == 0 || !is_digit(y[0]),
    ensures
        n == m,
        x == y,
{
    lemma_decimal_text(n);
    lemma_decimal_text(m);
    let a = decimal_text(n);
    let b = decimal_text(m);
    let s = a + x;
    if a.len() < b.len() {
        assert(s[a.len() as int] == b[a.len() as int]);
        assert(s[a.len() as int] == x[0]);
    } else if b.len() < a.len() {
        assert(s[b.len() as int] == a[b.len() as int]);
        assert((b + y)[b.len() as int] == y[0]);
    }
    assert(a =~= s.subrange(0, a.len() as int));
    assert(b =~= s.subrange(0, b.len() as int));
    assert(x =~= s.subrange(a.len() as int, s.len() as int));
    assert(y =~= (b + y).subrange(b.len() as int, s.len() as int));
}

proof fn lemma_number_list_chars(xs: Seq<u64>)
    ensures
        forall|i: int| 0 <= i < number_list_text(xs).len() ==>
            is_digit(#[trigger] number_list_text(xs)[i]) || number_list_text(xs)[i] == 44,
        xs.len() >= 1 ==> number_list_text(xs).len() >= 1,
    decreases xs.len(),
{
    let t = number_list_text(xs);
    if xs.len() == 1 {
        lemma_decimal_text(xs[0] as nat);
    } else if xs.len() >= 2 {
        lemma_number_list_chars(xs.drop_last());
        lemma_decimal_text(xs.last() as nat);
        let a = number_list_text(xs.drop_last()).push(44u8);
        assert forall|i: int| 0 <= i < t.len() implies is_digit(#[trigger] t[i]) || t[i] == 44 by {
            if i < a.len() - 1 {
                assert(t[i] == number_list_text(xs.drop_last())[i]);
            } else if i >= a.len() {
                assert(t[i] == decimal_text(xs.last() as nat)[i - a.len()]);
            }
        };
    }
}

/// `a + c1 == b + c2` with `c1`, `c2` all digits and `a`, `b` empty or ending
/// in a comma: the split is at the same place.
proof fn lemma_split_after_comma(a: Seq<u8>, c1: Seq<u8>, b: Seq<u8>, c2: Seq<u8>)
    requires
        a + c1 == b + c2,
        all_digits(c1),
        all_digits(c2),
        a.len() == 0 || a.last() == 44,
        b.len() == 0 || b.last() == 44,
    ensures
        a == b,
        c1 == c2,
{
    let s = a + c1;
    assert(a.len() + c1.len() == b.len() + c2.len()) by {
        assert(s.len() == (b + c2).len());
    };
    if a.len() < b.len() {
        let k = b.len() - 1;
        assert(s[k] == b[k]);
        assert(0 <= k - a.len() < c1.len());
        assert((a + c1)[k] == c1[k - a.len()]);
        assert(is_digit(c1[k - a.len()]));
    } else if b.len() < a.len() {
        let k = a.len() - 1;
        assert(s[k] == a[k]);
        assert(0 <= k - b.len() < c2.len());
        assert((b + c2)[k] == c2[k - b.len()]);
        assert(is_digit(c2[k - b.len()]));
    }
    assert(a =~= s.subrange(0, a.len() as int));
    assert(b =~= (b + c2).subrange(0, b.len() as int));
    assert(c1 =~= s.subrange(a.len() as int, s.len() as int));
    assert(c2 =~= (b + c2).subrange(b.len() as int, s.len() as int));
}

proof fn lemma_number_list_injective(xs1: Seq<u64>, xs2: Seq<u64>)
    requires
        number_list_text(xs1) == number_list_text(xs2),
    ensures
        xs1 == xs2,
    decreases xs1.len(),
{
    lemma_number_list_chars(xs1);
    lemma_number_list_chars(xs2);
    if xs1.len() == 0 || xs2.len() == 0 {
        assert(xs1.len() == 0 && xs2.len() == 0);
        assert(xs1 =~= xs2);
        return;
    }
    let a1 = if xs1.len() == 1 { Seq::<u8>::empty() } else { number_list_text(xs1.drop_last()).push(44u8) };
    let a2 = if xs2.len() == 1 { Seq::<u8>::empty() } else { number_list_text(xs2.drop_last()).push(44u8) };
    let l1 = xs1.last() as nat;
    let l2 = xs2.last() as nat;
    lemma_decimal_text(l1);
    lemma_decimal_text(l2);
    assert(number_list_text(xs1) =~= a1 + decimal_text(l1));
    assert(number_list_text(xs2) =~= a2 + decimal_text(l2));
    lemma_split_after_comma(a1, decimal_text(l1), a2, decimal_text(l2));
    assert(l1 == l2);
    if xs1.len() == 1 || xs2.len() == 1 {
        assert(xs1.len() == 1 && xs2.len() == 1);
    } else {
        assert(number_list_text(xs1.drop_last()) =~= a1.drop_last());
        assert(number_list_text(xs2.drop_last()) =~= a2.drop_last());
        lemma_number_list_injective(xs1.drop_last(), xs2.drop_last());
        assert(xs1 =~= xs1.drop_last().push(xs1.last()));
        assert(xs2 =~= xs2.drop_last().push(xs2.last()));
    }
    assert(xs1 =~= xs2);
}

/// The text after the id of a descriptor.
spec fn descriptor_rest(d: SubscriptionDescriptor) -> Seq<u8> {
    match d.index {
        Some(v) => index_head() + number_list_text(v@) + seq![93u8, 125],
        None => seq![125u8],
    }
}

proof fn lemma_descriptor_text_shape(d: SubscriptionDescriptor)
    ensures
        descriptor_text(d).len() >= 1,
        descriptor_text(d)[0] == 123,
        forall|i: int| 1 <= i < descriptor_text(d).len() ==> #[trigger] descriptor_text(d)[i] != 123,
{
    let h = descriptor_head();
    let dd = decimal_text(d.id as nat);
    let r = descriptor_rest(d);
    let t = descriptor_text(d);
    lemma_decimal_text(d.id as nat);
    assert(t =~= h + dd + r);
    assert forall|i: int| 1 <= i < t.len() implies #[trigger] t[i] != 123 by {
        if i < h.len() {
            assert(t[i] == h[i]);
        } else if i < h.len() + dd.len() {
            assert(t[i] == dd[i - h.len()]);
            assert(is_digit(dd[i - h.len()]));
        } else {
            let j = i - h.len() - dd.len();
            assert(t[i] == r[j]);
            match d.index {
                Some(v) => {
                    let ih = index_head();
                    let nl = number_list_text(v@);
                    lemma_number_list_chars(v@);
                    if j < ih.len() {
                        assert(r[j] == ih[j]);
                    } else if j < ih.len() + nl.len() {
                        assert(r[j] == nl[j - ih.len()]);
                    } else {
                        assert(r[j] == seq![93u8, 125][j - ih.len() - nl.len()]);
                    }
                },
                None => {},
            }
        }
    };
}

proof fn lemma_descriptor_injective(d1: SubscriptionDescriptor, d2: SubscriptionDescriptor)
    requires
        descriptor_text(d1) == descriptor_text(d2),
    ensures
        descriptor_view(d1) == descriptor_view(d2),
{
    let h = descriptor_head();
    let r1 = descriptor_rest(d1);
    let r2 = descriptor_rest(d2);
    let x1 = decimal_text(d1.id as nat) + r1;
    let x2 = decimal_text(d2.id as nat) + r2;
    assert(descriptor_text(d1) =~= h + x1);
    assert(descriptor_text(d2) =~= h + x2);
    assert(x1 =~= descriptor_text(d1).subrange(6, descriptor_text(d1).len() as int));
    assert(x2 =~= descriptor_text(d2).subrange(6, descriptor_text(d2).len() as int));
    assert(r1[0] == 44 || r1[0] == 125);
    assert(r2[0] == 44 || r2[0] == 125);
    lemma_decimal_prefix(d1.id as nat, d2.id as nat, r1, r2);
    match (d1.index, d2.index) {
        (Some(v1), Some(v2)) => {
            let n1 = number_list_text(v1@);
            let n2 = number_list_text(v2@);
            assert(n1 =~= r1.subrange(10, r1.len() - 2));
            assert(n2 =~= r2.subrange(10, r2.len() - 2));
            lemma_number_list_injective(v1@, v2@);
        },
        (Some(v1), None) => {
            assert(r1[0] == 44);
        },
        (None, Some(v2)) => {
            assert(r2[0] == 44);
        },
        (None, None) => {},
    }
}

/// `a + c1 == b + c2` where `c1` and `c2` each open with the only `{` they
/// hold: the split is at the same place.
proof fn lemma_split_at_brace(a: Seq<u8>, c1: Seq<u8>, b: Seq<u8>, c2: Seq<u8>)
    requires
        a + c1 == b + c2,
        c1.len() >= 1 && c1[0] == 123,
        c2.len() >= 1 && c2[0] == 123,
        forall|i: int| 1 <= i < c1.len() ==> #[trigger] c1[i] != 123,
        forall|i: int| 1 <= i < c2.len() ==> #[trigger] c2[i] != 123,
    ensures
        a == b,
        c1 == c2,
{
    let s = a + c1;
    assert(a.len() + c1.len() == b.len() + c2.len()) by {
        assert(s.len() == (b + c2).len());
    };
    if a.len() < b.len() {
        let k = b.len() as int;
        assert((b + c2)[k] == c2[0]);
        assert((a + c1)[k] == c1[k - a.len()]);
    } else if b.len() < a.len() {
        let k = a.len() as int;
        assert((a + c1)[k] == c1[0]);
        assert((b + c2)[k] == c2[k - b.len()]);
    }
    assert(a =~= s.subrange(0, a.len() as int));
    assert(b =~= (b + c2).subrange(0, b.len() as int));
    assert(c1 =~= s.subrange(a.len() as int, s.len() as int));
    assert(c2 =~= (b + c2).subrange(b.len() as int, s.len() as int));
}

proof fn lemma_descriptor_list_injective(ds1: Seq<SubscriptionDescriptor>, ds2: Seq<SubscriptionDescriptor>)
    requires
        descriptor_list_text(ds1) == descriptor_list_text(ds2),
    ensures
        ds1.map_values(|d: SubscriptionDescriptor| descriptor_view(d))
            == ds2.map_values(|d: SubscriptionDescriptor| descriptor_view(d)),
    decreases ds1.len(),
{
    if ds1.len() == 0 || ds2.len() == 0 {
        if ds1.len() > 0 {
            lemma_descriptor_text_shape(ds1.last());
            if ds1.len() >= 2 {
                assert(descriptor_list_text(ds1).len() >= descriptor_text(ds1.last()).len());
            }
        }
        if ds2.len() > 0 {
            lemma_descriptor_text_shape(ds2.last());
            if ds2.len() >= 2 {
                assert(descriptor_list_text(ds2).len() >= descriptor_text(ds2.last()).len());
            }
        }
        assert(ds1.len() == 0 && ds2.len() == 0);
        assert(ds1.map_values(|d: SubscriptionDescriptor| descriptor_view(d))
            =~= ds2.map_values(|d: SubscriptionDescriptor| descriptor_view(d)));
        return;
    }
    let a1 = if ds1.len() == 1 { Seq::<u8>::empty() } else { descriptor_list_text(ds1.drop_last()).push(44u8) };
    let a2 = if ds2.len() == 1 { Seq::<u8>::empty() } else { descriptor_list_text(ds2.drop_last()).push(44u8) };
    lemma_descriptor_text_shape(ds1.last());
    lemma_descriptor_text_shape(ds2.last());
    assert(descriptor_list_text(ds1) =~= a1 + descriptor_text(ds1.last()));
    assert(descriptor_list_text(ds2) =~= a2 + descriptor_text(ds2.last()));
    lemma_split_at_brace(a1, descriptor_text(ds1.last()), a2, descriptor_text(ds2.last()));
    lemma_descriptor_injective(ds1.last(), ds2.last());
    if ds1.len() == 1 || ds2.len() == 1 {
        assert(ds1.len() == 1 && ds2.len() == 1);
        assert(ds1.map_values(|d: SubscriptionDescriptor| descriptor_view(d))
            =~= ds2.map_values(|d: SubscriptionDescriptor| descriptor_view(d)));
    } else {
        assert(descriptor_list_text(ds1.drop_last()) =~= a1.drop_last());
        assert(descriptor_list_text(ds2.drop_last()) =~= a2.drop_last());
        lemma_descriptor_list_injective(ds1.drop_last(), ds2.drop_last());
        let v1 = ds1.map_values(|d: SubscriptionDescriptor| descriptor_view(d));
        let v2 = ds2.map_values(|d: SubscriptionDescriptor| descriptor_view(d));
        let w1 = ds1.drop_last().map_values(|d: SubscriptionDescriptor| descriptor_view(d));
        let w2 = ds2.drop_last().map_values(|d: SubscriptionDescriptor| descriptor_view(d));
        assert(v1 =~= w1.push(descriptor_view(ds1.last())));
        assert(v2 =~= w2.push(descriptor_view(ds2.last())));
    }
}

/// A subscribe request is recovered from its text: two requests with the
/// same text have the same request id and the same descriptors (ids and
/// indices), in the same order.
pub proof fn lemma_subscribe_frame_round_trip(
    req1: u64,
    ds1: Seq<SubscriptionDescriptor>,
    req2: u64,
    ds2: Seq<SubscriptionDescriptor>,
)
    requires
        subscribe_frame(req1, ds1) == subscribe_frame(req2, ds2),
    ensures
        req1 == req2,
        ds1.map_values(|d: SubscriptionDescriptor| descriptor_view(d))
            == ds2.map_values(|d: SubscriptionDescriptor| descriptor_view(d)),
{
    let h = frame_head();
    let m = frame_middle();
    let t = frame_tail();
    let x1 = m + descriptor_list_text(ds1) + t;
    let x2 = m + descriptor_list_text(ds2) + t;
    let f1 = subscribe_frame(req1, ds1);
    let f2 = subscribe_frame(req2, ds2);
    assert(f1 =~= h + (decimal_text(req1 as nat) + x1));
    assert(f2 =~= h + (decimal_text(req2 as nat) + x2));
    assert(decimal_text(req1 as nat) + x1 =~= f1.subrange(10, f1.len() as int));
    assert(decimal_text(req2 as nat) + x2 =~= f2.subrange(10, f2.len() as int));
    assert(x1[0] == 44);
    assert(x2[0] == 44);
    lemma_decimal_prefix(req1 as nat, req2 as nat, x1, x2);
    assert(descriptor_list_text(ds1) =~= x1.subrange(m.len() as int, x1.len() - 3));
    assert(descriptor_list_text(ds2) =~= x2.subrange(m.len() as int, x2.len() - 3));
    lemma_descriptor_list_injective(ds1, ds2);
}

fn push_all(out: &mut Vec<u8>, part: Vec<u8>)
    ensures
        final(out)@ == old(out)@ + part@,
{
    let mut i: usize = 0;
    while i < part.len()
        invariant
            0 <= i <= part@.len(),
            out@ == old(out)@ + part@.subrange(0, i as int),
        decreases part@.len() - i,
    {
        out.push(part[i]);
        i = i + 1;
        assert(out@ =~= old(out)@ + part@.subrange(0, i as int));
    }
    assert(part@.subrange(0, part@.len() as int) =~= part@);
}

fn push_decimal(out: &mut Vec<u8>, n: u64)
    ensures
        final(out)@ == old(out)@ + decimal_text(n as nat),
    decreases n,
{
    if n >= 10 {
        push_decimal(out, n / 10);
    }
    out.push(48u8 + (n % 10) as u8);
    assert(out@ =~= old(out)@ + decimal_text(n as nat));
}

fn push_number_list(out: &mut Vec<u8>, xs: &Vec<u64>)
    ensures
        final(out)@ == old(out)@ + number_list_text(xs@),
{
    let mut i: usize = 0;
    assert(xs@.subrange(0, 0) =~= Seq::<u64>::empty());
    while i < xs.len()
        invariant
            0 <= i <= xs@.len(),
            out@ == old(out)@ + number_list_text(xs@.subrange(0, i as int)),
        decreases xs@.len() - i,
    {
        let ghost before = out@;
        let ghost s = xs@.subrange(0, i as int + 1);
        assert(s.drop_last() =~= xs@.subrange(0, i as int));
        if i > 0 {
            out.push(44u8);
        }
        push_decimal(out, xs[i]);
        i = i + 1;
        assert(out@ =~= old(out)@ + number_list_text(s));
    }
    assert(xs@.subrange(0, xs@.len() as int) =~= xs@);
}

fn push_descriptor(out: &mut Vec<u8>, d: &SubscriptionDescriptor)
    ensures
        final(out)@ == old(out)@ + descriptor_text(*d),
{
    push_all(out, vec![123u8, 34, 105, 100, 34, 58]);
    push_decimal(out, d.id);
    match &d.index {
        Some(v) => {
            push_all(out, vec![44u8, 34, 105, 110, 100, 101, 120, 34, 58, 91]);
            push_number_list(out, v);
            push_all(out, vec![93u8, 125]);
        },
        None => {
            push_all(out, vec![125u8]);
        },
    }
    assert(out@ =~= old(out)@ + descriptor_text(*d));
}

/// Encodes the request that subscribes to `datarefs` under `req_id`.
pub fn encode_subscribe(datarefs: &Vec<SubscriptionDescriptor>, req_id: u64) -> (r: Vec<u8>)
    ensures
        r@ == subscribe_frame(req_id, datarefs@),
{
    let mut out: Vec<u8> = Vec::new();
    push_all(&mut out, vec![123u8, 34, 114, 101, 113, 95, 105, 100, 34, 58]);
    push_decimal(&mut out, req_id);
    push_all(
        &mut out,
        vec![
            44u8, 34, 116, 121, 112, 101, 34, 58, 34, 100, 97, 116, 97, 114, 101, 102, 95, 115, 117,
            98, 115, 99, 114, 105, 98, 101, 95, 118, 97, 108, 117, 101, 115, 34, 44, 34, 112, 97,
            114, 97, 109, 115, 34, 58, 123, 34, 100, 97, 116, 97, 114, 101, 102, 115, 34, 58, 91,
        ],
    );
    let ghost start = out@;
    let mut i: usize = 0;
    assert(datarefs@.subrange(0, 0) =~= Seq::<SubscriptionDescriptor>::empty());
    assert(out@ =~= start + descriptor_list_text(datarefs@.subrange(0, 0)));
    while i < datarefs.len()
        invariant
            0 <= i <= datarefs@.len(),
            out@ == start + descriptor_list_text(datarefs@.subrange(0, i as int)),
        decreases datarefs@.len() - i,
    {
        let ghost s = datarefs@.subrange(0, i as int + 1);
        assert(s.drop_last() =~= datarefs@.subrange(0, i as int));
        if i > 0 {
            out.push(44u8);
        }
        push_descriptor(&mut out, &datarefs[i]);
        i = i + 1;
        assert(out@ =~= start + descriptor_list_text(s));
    }
    assert(datarefs@.subrange(0, datarefs@.len() as int) =~= datarefs@);
    push_all(&mut out, vec![93u8, 125, 125]);
    assert(out@ =~= subscribe_frame(req_id, datarefs@));
    out
}

/// Where a connection stands. A transport failure leads back to
/// `Disconnected` from every phase; a new connection starts over.
#[derive(Debug, Clone, Copy, PartialEq, Eq, Structural)]
pub enum ClientPhase {
    Disconnected,
    Connected,
    Subscribed,
    Streaming,
}

/// Why a subscription could not be sent.
#[derive(Debug, Clone, Copy, PartialEq, Eq, Structural)]
pub enum SubscribeError {
    /// No connection has been established.
    NotConnected,
    /// The request could not be encoded.
    Serialize,
    /// Writing the request to the connection failed.
    Send,
}

/// A frame received on the streaming channel.
pub enum WebSocketResponse {
    /// The host's acknowledgement of request `req_id`.
    ResultMessage { req_id: u64, success: bool },
    /// New values, each under its id written in decimal, in arrival order.
    DataRefUpdate { data: Vec<(String, Value)> },
}

/// The decisions of a streaming-channel client: which phase it is in, and
/// what to send. The connection itself is driven by its owner, which reports
/// each transport event here.
pub struct XPlaneClient {
    pub phase: ClientPhase,
}

/// What routing one update under the id text `id` gives, with `index` the
/// registry's map from id to name.
pub open spec fn update_outcome(id: Seq<char>, index: Map<u64, String>) -> Result<(), RegistryError> {
    match decimal_id(encode_utf8(id)) {
        None => Err(RegistryError::MalformedId),
        Some(k) => if index.contains_key(k) {
            Ok(())
        } else {
            Err(RegistryError::UnknownId)
        },
    }
}

/// The last value in `data` whose id text names `k`.
pub open spec fn last_routed(data: Seq<(String, Value)>, k: u64) -> Option<Value>
    decreases data.len(),
{
    if data.len() == 0 {
        None
    } else if decimal_id(encode_utf8(data.last().0@)) == Some(k) {
        Some(data.last().1)
    } else {
        last_routed(data.drop_last(), k)
    }
}

/// The last single number in `data` whose id text names `k`.
pub open spec fn last_single(data: Seq<(String, Value)>, k: u64) -> Option<u64>
    decreases data.len(),
{
    if data.len() == 0 {
        None
    } else if decimal_id(encode_utf8(data.last().0@)) == Some(k) && data.last().1 is Single {
        Some(data.last().1->Single_0)
    } else {
        last_single(data.drop_last(), k)
    }
}

/// The id under which the index `index` sends updates to `h`, if any: its
/// own id, unless that id has since been given to another name.
pub open spec fn routed_id(h: DataRefHandler, index: Map<u64, String>) -> Option<u64> {
    match h.id_of() {
        Some(k) => if index.contains_key(k) && index[k]@ == h.name_of() {
            Some(k)
        } else {
            None
        },
        None => None,
    }
}

/// `after` is the handler `before` once the updates `data` went through a
/// registry with index `index`: a handler that the index does not lead to is
/// untouched; a battery array takes the state of the last single number sent
/// to its id; a generic dataref keeps the last value sent to its id.
pub open spec fn updated_by(
    before: DataRefHandler,
    after: DataRefHandler,
    data: Seq<(String, Value)>,
    index: Map<u64, String>,
) -> bool {
    match routed_id(before, index) {
        None => after == before,
        Some(k) => match (before, after) {
            (DataRefHandler::BatOHPArray(x), DataRefHandler::BatOHPArray(y)) => {
                &&& y.id == x.id
                &&& y.name == x.name
                &&& y.battery.name_view() == x.battery.name_view()
                &&& y.battery.state() == match last_single(data, k) {
                    Some(bits) => battery_state_of(bits),
                    None => x.battery.state(),
                }
            },
            (DataRefHandler::Generic(x), DataRefHandler::Generic(y)) => y == (GenericDataRef {
                last: match last_routed(data, k) {
                    Some(v) => Some(v),
                    None => x.last,
                },
                ..x
            }),
            _ => false,
        },
    }
}

impl XPlaneClient {
    pub fn new() -> (r: Self)
        ensures
            r.phase == ClientPhase::Disconnected,
    {
        XPlaneClient { phase: ClientPhase::Disconnected }
    }

    /// The connection was established.
    pub fn on_connected(&mut self)
        ensures
            final(self).phase == ClientPhase::Connected,
    {
        self.phase = ClientPhase::Connected;
    }

    /// The connection failed or closed.
    pub fn on_transport_closed(&mut self)
        ensures
            final(self).phase == ClientPhase::Disconnected,
    {
        self.phase = ClientPhase::Disconnected;
    }

    /// The request to send in order to subscribe to `datarefs` under
    /// `req_id`; refused before a connection is established. The host's
    /// acknowledgement is not awaited: it arrives later as a frame.
    pub fn subscribe(&mut self, datarefs: &Vec<SubscriptionDescriptor>, req_id: u64) -> (r: Result<Vec<u8>, SubscribeError>)
        ensures
            old(self).phase == ClientPhase::Disconnected ==> {
                &&& r == Err::<Vec<u8>, SubscribeError>(SubscribeError::NotConnected)
                &&& final(self).phase == ClientPhase::Disconnected
            },
            old(self).phase != ClientPhase::Disconnected ==> {
                &&& r matches Ok(frame) && frame@ == subscribe_frame(req_id, datarefs@)
                &&& final(self).phase == if old(self).phase == ClientPhase::Streaming {
                    ClientPhase::Streaming
                } else {
                    ClientPhase::Subscribed
                }
            },
    {
        if self.phase == ClientPhase::Disconnected {
            return Err(SubscribeError::NotConnected);
        }
        let frame = encode_subscribe(datarefs, req_id);
        if self.phase != ClientPhase::Streaming {
            self.phase = ClientPhase::Subscribed;
        }
        Ok(frame)
    }

    /// The read loop starts; only a connected client reads.
    pub fn start_streaming(&mut self) -> (r: bool)
        ensures
            r == (old(self).phase != ClientPhase::Disconnected),
            final(self).phase == if r { ClientPhase::Streaming } else { old(self).phase },
    {
        if self.phase == ClientPhase::Disconnected {
            false
        } else {
            self.phase = ClientPhase::Streaming;
            true
        }
    }
}

/// Handles one frame of the read loop: an acknowledgement changes nothing;
/// each value of an update is routed through the registry in arrival order.
/// The outcome of each routing is returned, in the same order; none of them
/// stops the others.
pub fn process_message(registry: &mut DataRefRegistry, message: WebSocketResponse) -> (r: Vec<Result<(), RegistryError>>)
    requires
        old(registry).wf(),
    ensures
        final(registry).wf(),
        final(registry).id_to_name == old(registry).id_to_name,
        final(registry).names() == old(registry).names(),
        final(registry).ids() == old(registry).ids(),
        match message {
            WebSocketResponse::ResultMessage { .. } => r@.len() == 0 && *final(registry) == *old(registry),
            WebSocketResponse::DataRefUpdate { data } => {
                &&& r@.len() == data@.len()
                &&& forall|t: int| 0 <= t < data@.len() ==> #[trigger] r@[t]
                    == update_outcome(data@[t].0@, old(registry).id_to_name@)
                &&& forall|x: int| 0 <= x < old(registry).len() ==> updated_by(
                    #[trigger] old(registry).datarefs@[x],
                    final(registry).datarefs@[x],
                    data@,
                    old(registry).id_to_name@,
                )
            },
        },
{
    match message {
        WebSocketResponse::ResultMessage { .. } => Vec::new(),
        WebSocketResponse::DataRefUpdate { data } => {
            let ghost all = data@;
            let n: usize = data.len();
            let mut rest = data;
            let mut out: Vec<Result<(), RegistryError>> = Vec::new();
            let mut t: usize = 0;
            assert(rest@ =~= all.subrange(0, n as int));
            while t < n
                invariant
                    n == all.len(),
                    0 <= t <= n,
                    rest@ == all.subrange(t as int, n as int),
                    registry.wf(),
                    registry.id_to_name == old(registry).id_to_name,
                    registry.names() == old(registry).names(),
                    registry.ids() == old(registry).ids(),
                    out@.len() == t,
                    forall|x: int| 0 <= x < old(registry).len() ==> updated_by(
                        #[trigger] old(registry).datarefs@[x],
                        registry.datarefs@[x],
                        all.subrange(0, t as int),
                        old(registry).id_to_name@,
                    ),
                    forall|u: int| 0 <= u < t ==> #[trigger] out@[u]
                        == update_outcome(all[u].0@, old(registry).id_to_name@),
                decreases n - t,
            {
                let ghost before = *registry;
                let (id, value) = rest.remove(0);
                assert(all[t as int] == (id, value));
                let id_text: &str = id.as_str();
                let outcome = registry.dispatch(id_text, value);
                proof {
                    assert(id_text.spec_bytes() == encode_utf8(id@));
                    assert(before.id_to_name@ == old(registry).id_to_name@);
                    match decimal_id(encode_utf8(id@)) {
                        None => {
                            assert(outcome == Err::<(), RegistryError>(RegistryError::MalformedId));
                        },
                        Some(k) => {
                            if before.id_to_name@.contains_key(k) {
                            }
                        },
                    }
                    assert(outcome == update_outcome(id@, old(registry).id_to_name@));
                    assert(registry.len() == before.len());
                    assert forall|x: int| 0 <= x < before.len() implies
                        #[trigger] registry.datarefs@[x].name_of() == before.datarefs@[x].name_of()
                        && registry.datarefs@[x].id_of() == before.datarefs@[x].id_of() by {
                        assert(before.names()[x] == before.datarefs@[x].name_of());
                    };
                    assert(registry.names() =~= before.names());
                    assert(registry.ids() =~= before.ids());
                }
                proof {
                    let p = all.subrange(0, t as int + 1);
                    assert(p.drop_last() =~= all.subrange(0, t as int));
                    assert(p.last() == (id, value));
                    assert forall|x: int| 0 <= x < old(registry).len() implies updated_by(
                        #[trigger] old(registry).datarefs@[x],
                        registry.datarefs@[x],
                        p,
                        old(registry).id_to_name@,
                    ) by {
                        let h0 = old(registry).datarefs@[x];
                        assert(updated_by(h0, before.datarefs@[x], all.subrange(0, t as int), old(registry).id_to_name@));
                        assert(before.ids()[x] == before.datarefs@[x].id_of());
                        assert(old(registry).ids()[x] == h0.id_of());
                        assert(before.names()[x] == before.datarefs@[x].name_of());
                        assert(old(registry).names()[x] == h0.name_of());
                        match decimal_id(encode_utf8(id@)) {
                            None => {},
                            Some(q) => {
                                if before.id_to_name@.contains_key(q)
                                    && before.datarefs@[x].name_of() == before.id_to_name@[q]@ {
                                    let y = choose|y: int| 0 <= y < before.len()
                                        && (#[trigger] before.datarefs@[y]).id_of() == Some(q)
                                        && before.datarefs@[y].name_of() == before.id_to_name@[q]@;
                                    if y < x {
                                        assert(before.datarefs@[y].name_of() != before.datarefs@[x].name_of());
                                    } else if x < y {
                                        assert(before.datarefs@[x].name_of() != before.datarefs@[y].name_of());
                                    }
                                    assert(routed_id(h0, old(registry).id_to_name@) == Some(q));
                                }
                            },
                        }
                    };
                }
                let ghost prev = out@;
                out.push(outcome);
                assert(out@ =~= prev.push(outcome));
                t = t + 1;
                assert(rest@ =~= all.subrange(t as int, n as int));
            }
            out
        },
    }
}

} // verus!
