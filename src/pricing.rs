use vstd::prelude::*;

verus! {

/// Round half away from zero of `p / 10000`.
pub open spec fn round_basis(p: int) -> int {
    if p >= 0 {
        (p + 5000) / 10000
    } else {
        -((-p + 5000) / 10000)
    }
}

/// Exact total of a line: `net_price * amount * (1 + tax/100) * (1 - discount/100)`,
/// rounded to the nearest minor unit, halves away from zero.
pub open spec fn total_price_of(net_price: int, amount: int, tax: int, discount: int) -> int {
    round_basis(net_price * amount * (100 + tax) * (100 - discount))
}

/// Computes the total of a line in minor currency units, or `None` where it
/// does not fit in an `i64`.
pub fn total_price(net_price: i64, amount: i64, tax: u32, discount: u32) -> (r: Option<i64>)
    requires
        discount <= 100,
    ensures
        r matches Some(t) ==> t == total_price_of(net_price as int, amount as int, tax as int, discount as int),
        r is None <==> !(i64::MIN <= total_price_of(net_price as int, amount as int, tax as int, discount as int) <= i64::MAX),
{
    proof {
        assert(-0x4000_0000_0000_0000_0000_0000_0000_0000 <= net_price as int * amount as int
            <= 0x4000_0000_0000_0000_0000_0000_0000_0000) by (nonlinear_arith)
            requires
                i64::MIN <= net_price <= i64::MAX,
                i64::MIN <= amount <= i64::MAX,
        ;
        assert(0 <= (100 + tax as int) * (100 - discount as int) <= (100 + u32::MAX as int) * 100)
            by (nonlinear_arith)
            requires
                tax <= u32::MAX,
                discount <= 100,
        ;
    }
    let na: i128 = (net_price as i128) * (amount as i128);
    let factor: i128 = (100 + tax as i128) * (100 - discount as i128);
    let ghost exact = net_price as int * amount as int * (100 + tax as int) * (100 - discount as int);
    assert(exact == na * factor) by (nonlinear_arith)
        requires
            na == net_price as int * amount as int,
            factor == (100 + tax as int) * (100 - discount as int),
            exact == net_price as int * amount as int * (100 + tax as int) * (100 - discount as int),
    ;
    match na.checked_mul(factor) {
        None => None,
        Some(p) => {
            // far outside the i64 range once divided by the basis
            if p > i128::MAX - 5000 || p < -(i128::MAX - 5000) {
                None
            } else {
                let rounded: i128 = if p >= 0 {
                    (p + 5000) / 10000
                } else {
                    -((-p + 5000) / 10000)
                };
                if rounded < i64::MIN as i128 || rounded > i64::MAX as i128 {
                    None
                } else {
                    Some(rounded as i64)
                }
            }
        },
    }
}

} // verus!
