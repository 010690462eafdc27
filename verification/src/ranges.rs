use vstd::prelude::*;
use vstd::arithmetic::div_mod::lemma_fundamental_div_mod;

verus! {

/// A length in millimeters is a class-A standard size: the 0.1 m grid over
/// [300.0 m, 360.0 m].
pub open spec fn in_class_a(x: int) -> bool {
    300000 <= x <= 360000 && x % 100 == 0
}

/// A length in millimeters is a class-B standard size: the 0.1 m grid over
/// [361.0 m, 600.0 m].
pub open spec fn in_class_b(x: int) -> bool {
    361000 <= x <= 600000 && x % 100 == 0
}

/// The class-A standard size at position `i` of the catalog, in millimeters.
pub open spec fn class_a_val(i: int) -> int {
    300000 + 100 * i
}

/// The class-B standard size at position `i` of the catalog, in millimeters.
pub open spec fn class_b_val(i: int) -> int {
    361000 + 100 * i
}

/// All class-A standard sizes in millimeters, strictly ascending.
pub fn class_a_lengths() -> (r: Vec<u64>)
    ensures
        r@.len() == 601,
        forall|i: int| 0 <= i < 601 ==> r@[i] == 300000 + 100 * i,
{
    let mut v: Vec<u64> = Vec::new();
    let mut k: u64 = 3000;
    while k <= 3600
        invariant
            3000 <= k <= 3601,
            v@.len() == k - 3000,
            forall|i: int| 0 <= i < v@.len() ==> v@[i] == 300000 + 100 * i,
        decreases 3601 - k,
    {
        v.push(k * 100);
        k += 1;
    }
    v
}

/// All class-B standard sizes in millimeters, strictly ascending.
pub fn class_b_lengths() -> (r: Vec<u64>)
    ensures
        r@.len() == 2391,
        forall|i: int| 0 <= i < 2391 ==> r@[i] == 361000 + 100 * i,
{
    let mut v: Vec<u64> = Vec::new();
    let mut k: u64 = 3610;
    while k <= 6000
        invariant
            3610 <= k <= 6001,
            v@.len() == k - 3610,
            forall|i: int| 0 <= i < v@.len() ==> v@[i] == 361000 + 100 * (i - 0),
        decreases 6001 - k,
    {
        v.push(k * 100);
        k += 1;
    }
    v
}

/// A value is a class-A size exactly when it stands somewhere in the class-A
/// catalog sequence.
pub proof fn lemma_class_a_index(x: int)
    ensures
        in_class_a(x) <==> exists|i: int| 0 <= i < 601 && x == #[trigger] class_a_val(i),
{
    if in_class_a(x) {
        lemma_fundamental_div_mod(x, 100);
        let i = x / 100 - 3000;
        assert(x == class_a_val(i));
        assert(0 <= i < 601);
    }
    if exists|i: int| 0 <= i < 601 && x == #[trigger] class_a_val(i) {
        let i = choose|i: int| 0 <= i < 601 && x == #[trigger] class_a_val(i);
        assert((300000 + 100 * i) % 100 == 0) by (nonlinear_arith);
    }
}

/// A value is a class-B size exactly when it stands somewhere in the class-B
/// catalog sequence.
pub proof fn lemma_class_b_index(x: int)
    ensures
        in_class_b(x) <==> exists|i: int| 0 <= i < 2391 && x == #[trigger] class_b_val(i),
{
    if in_class_b(x) {
        lemma_fundamental_div_mod(x, 100);
        let i = x / 100 - 3610;
        assert(x == class_b_val(i));
        assert(0 <= i < 2391);
    }
    if exists|i: int| 0 <= i < 2391 && x == #[trigger] class_b_val(i) {
        let i = choose|i: int| 0 <= i < 2391 && x == #[trigger] class_b_val(i);
        assert((361000 + 100 * i) % 100 == 0) by (nonlinear_arith);
    }
}

/// The two catalogs are disjoint: class A ends at 360.0 m and class B starts
/// at 361.0 m, so no standard size belongs to both.
pub proof fn lemma_catalogs_disjoint()
    ensures
        forall|x: int| !(in_class_a(x) && in_class_b(x)),
{
}

} // verus!
