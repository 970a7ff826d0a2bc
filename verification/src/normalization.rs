//! The risk of merchant categories.
use crate::numbers::{parse_u64, unsigned_of};
use vstd::prelude::*;

verus! {

/// The quantized risk of a merchant category that the table does not know.
pub const DEFAULT_RISK: i16 = 5000;

/// The entry of the table that a category code belongs to.
pub open spec fn risk_slot(code: Seq<char>) -> Option<int> {
    match unsigned_of(code) {
        Some(number) => if number < 10000 {
            Some(number as int)
        } else {
            None
        },
        None => None,
    }
}

fn parse_slot(code: &str) -> (slot: Option<usize>)
    ensures
        match slot {
            Some(i) => risk_slot(code@) == Some(i as int) && i < 10000,
            None => risk_slot(code@) is None,
        },
{
    match parse_u64(code) {
        Some(number) => if number < 10000 {
            Some(number as usize)
        } else {
            None
        },
        None => None,
    }
}

/// What requests are scored with: the quantized risk of each merchant category
/// code.
#[derive(Debug, Clone, Copy)]
pub struct Constants {
    pub mcc_risk_i16: [i16; 10000],
}

/// The risk of slot `i` after the given risks were entered in turn.
pub open spec fn risk_at(risks: Seq<(String, i16)>, i: int) -> i16
    decreases risks.len(),
{
    if risks.len() == 0 {
        DEFAULT_RISK
    } else if risk_slot(risks.last().0@) == Some(i) {
        risks.last().1
    } else {
        risk_at(risks.drop_last(), i)
    }
}

impl Constants {
    /// Enters the risks in turn; what is no code of a category is passed over,
    /// and a later risk replaces an earlier one for the same code.
    pub fn from_risks(risks: &[(String, i16)]) -> (table: Self)
        ensures
            forall|i: int|
                0 <= i < 10000 ==> #[trigger] table.mcc_risk_i16@[i] == risk_at(risks@, i),
            forall|i: int, k: int|
                0 <= i < 10000 && 0 <= k < risks@.len() && unsigned_of((#[trigger] risks@[k]).0@)
                    == Some(i as u64) && (forall|l: int|
                    k < l < risks@.len() ==> unsigned_of((#[trigger] risks@[l]).0@) != Some(
                        i as u64,
                    )) ==> #[trigger] table.mcc_risk_i16@[i] == risks@[k].1,
            forall|i: int|
                0 <= i < 10000 && (forall|l: int|
                    0 <= l < risks@.len() ==> unsigned_of((#[trigger] risks@[l]).0@) != Some(
                        i as u64,
                    )) ==> #[trigger] table.mcc_risk_i16@[i] == 5000,
    {
        let mut mcc_risk_i16 = [5000i16; 10000];
        let mut k: usize = 0;
        assert(risks@.take(0) =~= Seq::<(String, i16)>::empty());
        while k < risks.len()
            invariant
                k <= risks@.len(),
                forall|i: int|
                    0 <= i < 10000 ==> #[trigger] mcc_risk_i16@[i] == risk_at(
                        risks@.take(k as int),
                        i,
                    ),
            decreases risks.len() - k,
        {
            let ghost done = risks@.take(k + 1);
            assert(done.drop_last() =~= risks@.take(k as int));
            match parse_slot(risks[k].0.as_str()) {
                Some(slot) => {
                    mcc_risk_i16[slot] = risks[k].1;
                },
                None => {},
            }
            k = k + 1;
        }
        assert(risks@.take(k as int) =~= risks@);
        proof {
            assert forall|i: int, k: int|
                0 <= i < 10000 && 0 <= k < risks@.len() && unsigned_of((#[trigger] risks@[k]).0@)
                    == Some(i as u64) && (forall|l: int|
                    k < l < risks@.len() ==> unsigned_of((#[trigger] risks@[l]).0@) != Some(
                        i as u64,
                    )) implies #[trigger] mcc_risk_i16@[i] == risks@[k].1 by {
                law_last_risk_is_held(risks@, i, k);
            }
            assert forall|i: int|
                0 <= i < 10000 && (forall|l: int|
                    0 <= l < risks@.len() ==> unsigned_of((#[trigger] risks@[l]).0@) != Some(
                        i as u64,
                    )) implies #[trigger] mcc_risk_i16@[i] == 5000 by {
                law_last_risk_is_held(risks@, i, 0);
            }
        }
        Constants { mcc_risk_i16 }
    }
}

/// Where every risk is on the scale, every entry of the table is.
pub proof fn law_table_is_on_scale(risks: Seq<(String, i16)>, i: int)
    requires
        forall|k: int| 0 <= k < risks.len() ==> 0 <= (#[trigger] risks[k]).1 <= 10000,
    ensures
        0 <= risk_at(risks, i) <= 10000,
    decreases risks.len(),
{
    if risks.len() > 0 {
        let init = risks.drop_last();
        assert forall|k: int| 0 <= k < init.len() implies 0 <= (#[trigger] init[k]).1
            <= 10000 by {
            assert(init[k] == risks[k]);
        }
        assert(risks[risks.len() - 1] == risks.last());
        law_table_is_on_scale(init, i);
    }
}

/// What the table holds: for a code that is a number below ten thousand the
/// last risk that was given for it, whatever that is; the default where none
/// was given.
pub proof fn law_last_risk_is_held(risks: Seq<(String, i16)>, i: int, k: int)
    requires
        0 <= i < 10000,
    ensures
        0 <= k < risks.len() && unsigned_of(risks[k].0@) == Some(i as u64) && (forall|l: int|
            k < l < risks.len() ==> unsigned_of((#[trigger] risks[l]).0@) != Some(i as u64))
            ==> risk_at(risks, i) == risks[k].1,
        (forall|l: int|
            0 <= l < risks.len() ==> unsigned_of((#[trigger] risks[l]).0@) != Some(i as u64))
            ==> risk_at(risks, i) == 5000,
    decreases risks.len(),
{
    if risks.len() > 0 {
        let init = risks.drop_last();
        let last = risks.len() - 1;
        assert(risks[last] == risks.last());
        assert forall|l: int| 0 <= l < init.len() implies init[l] == #[trigger] risks[l] by {}
        law_last_risk_is_held(init, i, k);
        if 0 <= k < last && unsigned_of(risks[k].0@) == Some(i as u64) && (forall|l: int|
            k < l < risks.len() ==> unsigned_of((#[trigger] risks[l]).0@) != Some(i as u64)) {
            assert(unsigned_of(risks[last].0@) != Some(i as u64));
            assert forall|l: int| k < l < init.len() implies unsigned_of((#[trigger] init[l]).0@)
                != Some(i as u64) by {
                assert(unsigned_of(risks[l].0@) != Some(i as u64));
            }
        }
        if forall|l: int|
            0 <= l < risks.len() ==> unsigned_of((#[trigger] risks[l]).0@) != Some(i as u64) {
            assert(unsigned_of(risks[last].0@) != Some(i as u64));
            assert forall|l: int| 0 <= l < init.len() implies unsigned_of((#[trigger] init[l]).0@)
                != Some(i as u64) by {
                assert(unsigned_of(risks[l].0@) != Some(i as u64));
            }
        }
    }
}

/// What a table of risks holds: for a category the last risk that was given
/// for it, and the default where none was.
pub proof fn law_table(risks: &[(String, i16)], table: Constants, i: int, k: int)
    requires
        0 <= i < 10000,
        call_ensures(Constants::from_risks, (risks,), table),
    ensures
        0 <= k < risks@.len() && unsigned_of(risks@[k].0@) == Some(i as u64) && (forall|l: int|
            k < l < risks@.len() ==> unsigned_of((#[trigger] risks@[l]).0@) != Some(i as u64))
            ==> table.mcc_risk_i16@[i] == risks@[k].1,
        (forall|l: int|
            0 <= l < risks@.len() ==> unsigned_of((#[trigger] risks@[l]).0@) != Some(i as u64))
            ==> table.mcc_risk_i16@[i] == 5000,
{
    law_last_risk_is_held(risks@, i, k);
}

} // verus!
