//! The holiday ASCII string helper: a rolling hash over the bytes of a
//! label, and the focusing power of lenses arranged in 256 boxes.
use vstd::prelude::*;
use vstd::string::StringSliceAdditionalSpecFns;

verus! {

/// The rolling hash of the first `i` bytes: each byte is added, the
/// accumulator multiplied by 17 and reduced modulo 256.
pub open spec fn hash_upto(bytes: Seq<u8>, i: int) -> int
    decreases i,
{
    if i <= 0 {
        0
    } else {
        ((hash_upto(bytes, i - 1) + bytes[i - 1]) * 17) % 256
    }
}

/// The rolling hash of a label: byte for byte, add, multiply by 17,
/// reduce modulo 256.
pub fn hash(s: &str) -> (r: usize)
    ensures
        r as int == hash_upto(s.spec_bytes(), s.spec_bytes().len() as int),
        r < 256,
{
    let bytes = s.as_bytes();
    let mut acc: usize = 0;
    let mut i: usize = 0;
    while i < bytes.len()
        invariant
            bytes@ == s.spec_bytes(),
            i <= bytes@.len(),
            acc as int == hash_upto(bytes@, i as int),
            acc < 256,
        decreases bytes@.len() - i,
    {
        acc = ((acc + bytes[i] as usize) * 17) % 256;
        i = i + 1;
    }
    acc
}

/// One lens in a box: its label and focal length.
#[derive(Debug, Clone, PartialEq, Eq)]
pub struct Lens {
    pub label: Vec<u8>,
    pub focal: usize,
}

/// A byte-for-byte copy of a label.
fn copy_label(label: &Vec<u8>) -> (r: Vec<u8>)
    ensures
        r@ == label@,
{
    let mut r: Vec<u8> = Vec::new();
    let mut i: usize = 0;
    while i < label.len()
        invariant
            i <= label@.len(),
            r@ == label@.take(i as int),
        decreases label@.len() - i,
    {
        r.push(label[i]);
        proof {
            assert(r@ =~~= label@.take(i as int + 1));
        }
        i = i + 1;
    }
    proof {
        assert(label@.take(label@.len() as int) =~~= label@);
    }
    r
}

/// Whether two labels hold the same bytes.
fn labels_equal(a: &Vec<u8>, b: &Vec<u8>) -> (r: bool)
    ensures
        r == (a@ == b@),
{
    if a.len() != b.len() {
        return false;
    }
    let mut i: usize = 0;
    while i < a.len()
        invariant
            i <= a@.len(),
            a@.len() == b@.len(),
            forall|j: int| 0 <= j < i ==> a@[j] == b@[j],
        decreases a@.len() - i,
    {
        if a[i] != b[i] {
            return false;
        }
        i = i + 1;
    }
    proof {
        assert(a@ =~~= b@);
    }
    true
}

/// Sets the focal length under `label` in one box: the first lens with
/// that label is refitted; where none holds it, a fresh lens goes to the
/// back of the box.
pub fn insert(lens_box: &mut Vec<Lens>, label: &Vec<u8>, focal: usize)
    ensures
        (exists|i: int|
            0 <= i < old(lens_box)@.len() && (#[trigger] old(lens_box)@[i]).label@ == label@)
            ==> exists|i: int|
            {
                &&& 0 <= i < old(lens_box)@.len()
                &&& (#[trigger] old(lens_box)@[i]).label@ == label@
                &&& forall|j: int| 0 <= j < i ==> (#[trigger] old(lens_box)@[j]).label@ != label@
                &&& final(lens_box)@.len() == old(lens_box)@.len()
                &&& final(lens_box)@[i].label@ == label@
                &&& final(lens_box)@[i].focal == focal
                &&& forall|j: int|
                    0 <= j < old(lens_box)@.len() && j != i ==> #[trigger] final(lens_box)@[j]
                        == old(lens_box)@[j]
            },
        (forall|i: int|
            0 <= i < old(lens_box)@.len() ==> (#[trigger] old(lens_box)@[i]).label@ != label@)
            ==> final(lens_box)@.len() == old(lens_box)@.len() + 1 && final(lens_box)@.last().label@
            == label@ && final(lens_box)@.last().focal == focal && final(lens_box)@.drop_last()
            == old(lens_box)@,
{
    let mut i: usize = 0;
    while i < lens_box.len()
        invariant
            lens_box@ == old(lens_box)@,
            i <= lens_box@.len(),
            forall|j: int| 0 <= j < i ==> (#[trigger] lens_box@[j]).label@ != label@,
        decreases lens_box@.len() - i,
    {
        if labels_equal(&lens_box[i].label, label) {
            let kept = copy_label(&lens_box[i].label);
            lens_box[i] = Lens { label: kept, focal };
            proof {
                let wi = i as int;
                assert(old(lens_box)@[wi].label@ == label@);
                assert(lens_box@[wi].label@ == label@);
                assert(lens_box@[wi].focal == focal);
                assert(forall|j: int|
                    0 <= j < old(lens_box)@.len() && j != wi ==> #[trigger] lens_box@[j] == old(
                        lens_box,
                    )@[j]);
            }
            return ;
        }
        i = i + 1;
    }
    lens_box.push(Lens { label: copy_label(label), focal });
    proof {
        assert(lens_box@.drop_last() =~~= old(lens_box)@);
    }
}

/// Takes the first lens with the given label out of the box, closing the
/// gap; a box without that label stays as it is.
pub fn remove(lens_box: &mut Vec<Lens>, label: &Vec<u8>)
    ensures
        (exists|i: int|
            0 <= i < old(lens_box)@.len() && (#[trigger] old(lens_box)@[i]).label@ == label@)
            ==> exists|i: int|
            {
                &&& 0 <= i < old(lens_box)@.len()
                &&& (#[trigger] old(lens_box)@[i]).label@ == label@
                &&& final(lens_box)@ == old(lens_box)@.remove(i)
            },
        (forall|i: int|
            0 <= i < old(lens_box)@.len() ==> (#[trigger] old(lens_box)@[i]).label@ != label@)
            ==> final(lens_box)@ == old(lens_box)@,
{
    let mut i: usize = 0;
    while i < lens_box.len()
        invariant
            lens_box@ == old(lens_box)@,
            i <= lens_box@.len(),
            forall|j: int| 0 <= j < i ==> (#[trigger] lens_box@[j]).label@ != label@,
        decreases lens_box@.len() - i,
    {
        if labels_equal(&lens_box[i].label, label) {
            lens_box.remove(i);
            proof {
                let wi = i as int;
                assert(old(lens_box)@[wi].label@ == label@);
                assert(lens_box@ == old(lens_box)@.remove(wi));
            }
            return ;
        }
        i = i + 1;
    }
}

/// The focusing power of the lenses of box `boxn` up to slot `i`: each
/// lens contributes `(boxn + 1) * (slot + 1) * focal`.
pub open spec fn box_power_upto(boxn: int, lenses: Seq<Lens>, i: int) -> int
    decreases i,
{
    if i <= 0 {
        0
    } else {
        box_power_upto(boxn, lenses, i - 1) + (boxn + 1) * i * (lenses[i - 1].focal as int)
    }
}

/// The focusing power of boxes `0..b`.
pub open spec fn power_upto(boxes: Seq<Seq<Lens>>, b: int) -> int
    decreases b,
{
    if b <= 0 {
        0
    } else {
        power_upto(boxes, b - 1) + box_power_upto(b - 1, boxes[b - 1], boxes[b - 1].len() as int)
    }
}

/// The focusing power of the whole arrangement: over every box and slot,
/// the product of box number plus one, slot number plus one, and focal
/// length.
pub fn focusing_power(boxes: &Vec<Vec<Lens>>) -> (r: usize)
    requires
        boxes@.len() <= 256,
        forall|b: int| 0 <= b < boxes@.len() ==> (#[trigger] boxes@[b])@.len() <= 16,
        forall|b: int, i: int|
            0 <= b < boxes@.len() && 0 <= i < boxes@[b]@.len() ==> (#[trigger] boxes@[b]@[i]).focal
                <= 16,
    ensures
        r as int == power_upto(boxes@.map_values(|l: Vec<Lens>| l@), boxes@.len() as int),
{
    let ghost bs = boxes@.map_values(|l: Vec<Lens>| l@);
    let mut total: usize = 0;
    let mut b: usize = 0;
    while b < boxes.len()
        invariant
            bs == boxes@.map_values(|l: Vec<Lens>| l@),
            boxes@.len() <= 256,
            forall|bb: int| 0 <= bb < boxes@.len() ==> (#[trigger] boxes@[bb])@.len() <= 16,
            forall|bb: int, i: int|
                0 <= bb < boxes@.len() && 0 <= i < boxes@[bb]@.len() ==> (
                #[trigger] boxes@[bb]@[i]).focal <= 16,
            b <= boxes@.len(),
            total as int == power_upto(bs, b as int),
            total <= b * 1052672,
        decreases boxes@.len() - b,
    {
        let lenses = &boxes[b];
        let mut i: usize = 0;
        let mut box_total: usize = 0;
        while i < lenses.len()
            invariant
                bs == boxes@.map_values(|l: Vec<Lens>| l@),
                boxes@.len() <= 256,
                b < boxes@.len(),
                lenses@ == boxes@[b as int]@,
                lenses@.len() <= 16,
                forall|j: int| 0 <= j < lenses@.len() ==> (#[trigger] lenses@[j]).focal <= 16,
                i <= lenses@.len(),
                box_total as int == box_power_upto(b as int, lenses@, i as int),
                box_total <= i * 65792,
            decreases lenses@.len() - i,
        {
            proof {
                assert(bs[b as int] == lenses@);
                vstd::arithmetic::mul::lemma_mul_upper_bound(b as int + 1, 257int, i as int + 1, 16int);
                vstd::arithmetic::mul::lemma_mul_nonnegative(b as int + 1, i as int + 1);
                vstd::arithmetic::mul::lemma_mul_upper_bound(
                    (b as int + 1) * (i as int + 1),
                    257int * 16,
                    lenses@[i as int].focal as int,
                    16,
                );
                vstd::arithmetic::mul::lemma_mul_nonnegative(
                    (b as int + 1) * (i as int + 1),
                    lenses@[i as int].focal as int,
                );
                assert(i as int * 65792 + 65792 <= 16 * 65792) by (nonlinear_arith)
                    requires
                        i as int + 1 <= 16,
                ;
            }
            let contribution = (b + 1) * (i + 1) * lenses[i].focal;
            box_total = box_total + contribution;
            proof {
                assert(box_power_upto(b as int, lenses@, i as int + 1) == box_power_upto(
                    b as int,
                    lenses@,
                    i as int,
                ) + (b as int + 1) * (i as int + 1) * (lenses@[i as int].focal as int));
                vstd::arithmetic::mul::lemma_mul_is_associative(
                    b as int + 1,
                    i as int + 1,
                    lenses@[i as int].focal as int,
                );
                assert(i as int * 65792 + 65792 <= (i as int + 1) * 65792) by (nonlinear_arith);
            }
            i = i + 1;
        }
        proof {
            assert(bs[b as int] == lenses@);
            assert(power_upto(bs, b as int + 1) == power_upto(bs, b as int) + box_power_upto(
                b as int,
                bs[b as int],
                bs[b as int].len() as int,
            ));
            assert(i as int * 65792 <= 1052672) by (nonlinear_arith)
                requires
                    i <= 16,
            ;
            assert(b as int * 1052672 + 1052672 <= (b as int + 1) * 1052672) by (nonlinear_arith);
            assert((b as int + 1) * 1052672 <= 257 * 1052672) by (nonlinear_arith)
                requires
                    b as int + 1 <= 257,
            ;
        }
        total = total + box_total;
        b = b + 1;
    }
    total
}

} // verus!
