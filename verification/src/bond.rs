//! Coupon-schedule helpers on serial dates.
//!
//! A bond pays every `12 / freq` months, counted backwards from maturity.
//! The previous coupon date is the latest schedule date strictly before
//! settlement; the next coupon date is one period after it, clamped to
//! maturity; the coupon count is the number of periods between the previous
//! coupon date and maturity.

use crate::datetime::{
    lemma_date_lt_iff_serial_lt, lemma_months_add, spec_add_months, spec_date_lt,
    spec_days_in_month, spec_months, spec_serial, spec_valid_date, EasyDate,
};
use vstd::prelude::*;

verus! {

/// The dates are the calendar forms of the two serials.
pub open spec fn coup_dates_match(settle: int, maturity: int, sd: EasyDate, md: EasyDate) -> bool {
    &&& spec_valid_date(sd.year as int, sd.month as int, sd.day as int)
    &&& spec_serial(sd.year as int, sd.month as int, sd.day as int) == settle
    &&& spec_valid_date(md.year as int, md.month as int, md.day as int)
    &&& spec_serial(md.year as int, md.month as int, md.day as int) == maturity
}

/// `k` is the first period count that steps back past the settlement date.
pub open spec fn coup_k_ok(sd: EasyDate, md: EasyDate, freq: int, k: int) -> bool {
    &&& 1 <= k
    &&& spec_date_lt(spec_add_months(md, -k * (12int / freq)), sd)
    &&& forall|j: int|
        1 <= j < k ==> !spec_date_lt(#[trigger] spec_add_months(md, -j * (12int / freq)), sd)
}

/// The previous coupon date: `k` periods before maturity, moved to the end
/// of its month when maturity itself is an end-of-month date.
pub open spec fn coup_prev_date(md: EasyDate, freq: int, k: int) -> EasyDate {
    let curr = spec_add_months(md, -k * (12int / freq));
    if md.day == spec_days_in_month(md.year as int, md.month as int) {
        EasyDate {
            year: curr.year,
            month: curr.month,
            day: spec_days_in_month(curr.year as int, curr.month as int) as u32,
        }
    } else {
        curr
    }
}

/// The next coupon date: one period after the previous one, clamped to
/// maturity.
pub open spec fn coup_next_date(md: EasyDate, freq: int, k: int) -> EasyDate {
    let next = spec_add_months(coup_prev_date(md, freq, k), 12int / freq);
    if spec_date_lt(md, next) {
        md
    } else {
        next
    }
}

/// The whole behaviour of the previous-coupon-date computation.
pub open spec fn couppcd_post(settle: int, maturity: int, freq: int, r: int) -> bool {
    exists|sd: EasyDate, md: EasyDate, k: int|
        {
            &&& #[trigger] coup_dates_match(settle, maturity, sd, md)
            &&& #[trigger] coup_k_ok(sd, md, freq, k)
            &&& {
                let p = coup_prev_date(md, freq, k);
                &&& spec_valid_date(p.year as int, p.month as int, p.day as int)
                &&& r == spec_serial(p.year as int, p.month as int, p.day as int)
            }
        }
}

/// The whole behaviour of the next-coupon-date computation.
pub open spec fn coupncd_post(settle: int, maturity: int, freq: int, r: int) -> bool {
    exists|sd: EasyDate, md: EasyDate, k: int|
        {
            &&& #[trigger] coup_dates_match(settle, maturity, sd, md)
            &&& #[trigger] coup_k_ok(sd, md, freq, k)
            &&& {
                let n = coup_next_date(md, freq, k);
                &&& spec_valid_date(n.year as int, n.month as int, n.day as int)
                &&& r == spec_serial(n.year as int, n.month as int, n.day as int)
            }
        }
}

/// The whole behaviour of the coupon count: the period count that reaches
/// back past settlement.
pub open spec fn coupnum_post(settle: int, maturity: int, freq: int, r: int) -> bool {
    exists|sd: EasyDate, md: EasyDate|
        #[trigger] coup_dates_match(settle, maturity, sd, md) && coup_k_ok(sd, md, freq, r)
}

/// The serials both sides of the coupon helpers must respect: settlement
/// from 1901 on, strictly before maturity, maturity in range.
pub open spec fn coup_args_ok(settle: int, maturity: int) -> bool {
    &&& spec_serial(1901, 1, 1) <= settle
    &&& settle < maturity
    &&& maturity <= spec_serial(9999, 12, 31)
}

/// The settlement date of valid coupon arguments is at 1901 or later, and
/// before the maturity date.
proof fn lemma_coup_dates(settle: int, maturity: int, sd: EasyDate, md: EasyDate)
    requires
        coup_args_ok(settle, maturity),
        coup_dates_match(settle, maturity, sd, md),
    ensures
        sd.year >= 1901,
        spec_date_lt(sd, md),
        spec_months(sd) >= 1901 * 12,
        spec_months(md) >= spec_months(sd),
{
    let jan1901 = EasyDate { year: 1901, month: 1, day: 1 };
    assert(spec_valid_date(1901, 1, 1));
    lemma_date_lt_iff_serial_lt(sd, jan1901);
    lemma_date_lt_iff_serial_lt(sd, md);
    if sd.year < 1901 {
        assert(spec_date_lt(sd, jan1901));
    }
}

/// A date that is not before another has at least its month count.
proof fn lemma_months_of_ge(a: EasyDate, b: EasyDate)
    requires
        !spec_date_lt(a, b),
        1 <= a.month <= 12,
        1 <= b.month <= 12,
    ensures
        spec_months(a) >= spec_months(b),
{
}

/// The common search for the first schedule date before settlement.
/// Hands back the raw stepped-back date and its period count.
fn coup_search(settle: u32, maturity: u32, freq: u8) -> (r: (EasyDate, u32, Ghost<
    (EasyDate, EasyDate)>,
))
    requires
        freq == 1 || freq == 2 || freq == 4,
        coup_args_ok(settle as int, maturity as int),
    ensures
        ({
            let (curr, k, gh) = r;
            let sd = gh@.0;
            let md = gh@.1;
            &&& coup_dates_match(settle as int, maturity as int, sd, md)
            &&& coup_k_ok(sd, md, freq as int, k as int)
            &&& curr == spec_add_months(md, -(k as int) * (12int / (freq as int)))
            &&& spec_valid_date(curr.year as int, curr.month as int, curr.day as int)
            &&& spec_months(curr) == spec_months(md) - (k as int) * (12int / (freq as int))
            &&& spec_months(curr) >= spec_months(sd) - (12int / (freq as int))
            &&& spec_months(md) >= spec_months(sd)
            &&& md.day <= 31
        }),
{
    proof {
        assert(spec_valid_date(1901, 1, 1));
        crate::datetime::lemma_days_in_year_value(1900);
        reveal_with_fuel(crate::datetime::spec_days_before_year, 3);
        assert(spec_serial(1901, 1, 1) == 367);
    }
    let settle_date = EasyDate::from_serial(settle);
    let maturity_date = EasyDate::from_serial(maturity);
    proof {
        lemma_coup_dates(settle as int, maturity as int, settle_date, maturity_date);
    }
    let step: i64 = 12 / (freq as i64);
    let mut idx: u32 = 1;
    loop
        invariant
            freq == 1 || freq == 2 || freq == 4,
            step == 12int / (freq as int),
            1 <= step <= 12,
            1 <= idx,
            coup_dates_match(settle as int, maturity as int, settle_date, maturity_date),
            coup_args_ok(settle as int, maturity as int),
            spec_months(settle_date) >= 1901 * 12,
            forall|j: int|
                1 <= j < idx ==> !spec_date_lt(
                    #[trigger] spec_add_months(maturity_date, -j * (12int / (freq as int))),
                    settle_date,
                ),
            spec_months(maturity_date) - (idx - 1) * step >= spec_months(settle_date),
            idx <= 200000,
        decreases spec_months(maturity_date) - idx * step + 24 - spec_months(settle_date),
    {
        let mut curr = maturity_date;
        proof {
            assert((idx as int) * step == (idx as int - 1) * step + step) by (nonlinear_arith);
            assert((idx as int) * (-step) == -((idx as int) * step)) by (nonlinear_arith);
            assert(spec_months(maturity_date) + (idx as int) * (-step) >= spec_months(settle_date)
                - step);
            assert(spec_months(maturity_date) <= 9999 * 12 + 11);
        }
        curr.add_delta_months((idx as i64) * (-step));
        proof {
            assert((idx as i64 * (-step)) as int == -(idx as int) * (12int / (freq as int)))
                by (nonlinear_arith)
                requires
                    step == 12int / (freq as int),
            ;
            lemma_months_add(maturity_date, -(idx as int) * (12int / (freq as int)));
        }
        if curr.lt(&settle_date) {
            proof {
                assert(1900 * 12 <= spec_months(curr));
                assert(curr.year >= 1900 && curr.year <= 9999) by {
                    assert(spec_months(curr) == curr.year * 12 + curr.month - 1);
                };
                assert(spec_valid_date(curr.year as int, curr.month as int, curr.day as int));
            }
            return (curr, idx, Ghost((settle_date, maturity_date)));
        }
        proof {
            lemma_months_of_ge(curr, settle_date);
            assert(spec_months(curr) == spec_months(maturity_date) - (idx as int) * step);
            assert(idx < 200000) by {
                assert(spec_months(maturity_date) - (idx as int) * step >= spec_months(
                    settle_date,
                ));
                assert((idx as int) <= (idx as int) * step) by (nonlinear_arith)
                    requires
                        step >= 1,
                        idx >= 0,
                ;
            }
            assert forall|j: int|
                1 <= j < idx + 1 implies !spec_date_lt(
                #[trigger] spec_add_months(maturity_date, -j * (12int / (freq as int))),
                settle_date,
            ) by {
                if j == idx {
                    assert(spec_add_months(maturity_date, -j * (12int / (freq as int))) == curr);
                }
            }
            assert((idx as int + 1) * step == (idx as int) * step + step) by (nonlinear_arith);
        }
        idx = idx + 1;
    }
}

/// The serial of the latest coupon date strictly before settlement.
pub fn couppcd(settle: u32, maturity: u32, freq: u8) -> (r: u32)
    requires
        freq == 1 || freq == 2 || freq == 4,
        coup_args_ok(settle as int, maturity as int),
    ensures
        couppcd_post(settle as int, maturity as int, freq as int, r as int),
{
    let (mut curr, k, gh) = coup_search(settle, maturity, freq);
    let maturity_date = EasyDate::from_serial(maturity);
    proof {
        crate::datetime::lemma_serial_unique(maturity_date, gh@.1);
    }
    if maturity_date.is_last_date_of_this_month() {
        curr = curr.last_day_of_this_month();
    }
    proof {
        assert(curr == coup_prev_date(gh@.1, freq as int, k as int));
        assert(spec_valid_date(curr.year as int, curr.month as int, curr.day as int));
    }
    match crate::datetime::get_serial_num_by_date_1900(curr.year, curr.month, curr.day) {
        Some(s) => {
            proof {
                assert(coup_dates_match(settle as int, maturity as int, gh@.0, gh@.1));
                assert(coup_k_ok(gh@.0, gh@.1, freq as int, k as int));
                assert(s as int == spec_serial(curr.year as int, curr.month as int, curr.day as int));
            }
            s
        },
        None => {
            proof {
                assert(false);
            }
            0
        },
    }
}

/// The serial of the first coupon date on or after settlement: one period
/// past the previous coupon date, clamped to maturity.
#[verifier::rlimit(60)]
pub fn coupncd(settle: u32, maturity: u32, freq: u8) -> (r: u32)
    requires
        freq == 1 || freq == 2 || freq == 4,
        coup_args_ok(settle as int, maturity as int),
    ensures
        coupncd_post(settle as int, maturity as int, freq as int, r as int),
{
    let (mut curr, k, gh) = coup_search(settle, maturity, freq);
    let maturity_date = EasyDate::from_serial(maturity);
    proof {
        crate::datetime::lemma_serial_unique(maturity_date, gh@.1);
    }
    if maturity_date.is_last_date_of_this_month() {
        curr = curr.last_day_of_this_month();
    }
    proof {
        assert(curr == coup_prev_date(gh@.1, freq as int, k as int));
        lemma_coup_dates(settle as int, maturity as int, gh@.0, gh@.1);
        let stepi = 12int / (freq as int);
        assert((k as int) * stepi == (k as int - 1) * stepi + stepi) by (nonlinear_arith);
        if k >= 2 {
            assert(!spec_date_lt(
                spec_add_months(gh@.1, -(k as int - 1) * (12int / (freq as int))),
                gh@.0,
            ));
            assert((k as int - 1) * (12int / (freq as int)) >= 0) by (nonlinear_arith)
                requires
                    k >= 2,
                    freq == 1 || freq == 2 || freq == 4,
            ;
            assert(spec_months(gh@.1) - (k as int - 1) * (12int / (freq as int)) == spec_months(
                curr,
            ) + (12int / (freq as int)));
            assert(spec_months(curr) >= 0) by {
                assert(spec_months(curr) == curr.year * 12 + curr.month - 1);
            };
            assert(-(k as int - 1) * (12int / (freq as int)) == -((k as int - 1) * (12int / (
            freq as int)))) by (nonlinear_arith);
            lemma_months_add(gh@.1, -(k as int - 1) * (12int / (freq as int)));
            lemma_months_of_ge(
                spec_add_months(gh@.1, -(k as int - 1) * (12int / (freq as int))),
                gh@.0,
            );
        }
        assert(spec_months(curr) + stepi >= spec_months(gh@.0) - 12);
        assert(spec_months(curr) + stepi <= spec_months(gh@.1));
        crate::datetime::lemma_months_add(curr, stepi);
    }
    let step: i64 = 12 / (freq as i64);
    curr.add_delta_months(step);
    if maturity_date.lt(&curr) {
        curr = maturity_date;
    }
    proof {
        assert(curr == coup_next_date(gh@.1, freq as int, k as int));
        assert(spec_months(curr) >= 1900 * 12 ==> curr.year >= 1900) by {
            assert(spec_months(curr) == curr.year * 12 + curr.month - 1);
        };
        assert(spec_valid_date(curr.year as int, curr.month as int, curr.day as int));
    }
    match crate::datetime::get_serial_num_by_date_1900(curr.year, curr.month, curr.day) {
        Some(s) => {
            proof {
                assert(coup_dates_match(settle as int, maturity as int, gh@.0, gh@.1));
                assert(coup_k_ok(gh@.0, gh@.1, freq as int, k as int));
                assert(s as int == spec_serial(curr.year as int, curr.month as int, curr.day as int));
            }
            s
        },
        None => {
            proof {
                assert(false);
            }
            0
        },
    }
}

/// The number of coupon periods from settlement to maturity.
pub fn coupnum(settle: u32, maturity: u32, freq: u8) -> (r: u32)
    requires
        freq == 1 || freq == 2 || freq == 4,
        coup_args_ok(settle as int, maturity as int),
    ensures
        coupnum_post(settle as int, maturity as int, freq as int, r as int),
{
    let (curr, k, gh) = coup_search(settle, maturity, freq);
    proof {
        assert(coup_dates_match(settle as int, maturity as int, gh@.0, gh@.1));
        assert(coup_k_ok(gh@.0, gh@.1, freq as int, k as int));
    }
    k
}

} // verus!
