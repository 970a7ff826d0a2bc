//! Vectors and the parts of a payment request that the scoring rules read.
//!
//! Amounts, counts and distances stand here as features: in ten-thousandths of
//! the largest value that counts, from 0 to 10000.
use crate::vectorize::FastDateTime;
use vstd::prelude::*;
use vstd::string::StringSliceAdditionalSpecFns;
use vstd::utf8::encode_utf8_decode_utf8;

verus! {

/// A quantized vector: fourteen features and two zero dimensions of padding.
pub type Vec16I = [i16; 16];

/// Whether two strings are the same.
pub(crate) fn same_str(a: &str, b: &str) -> (same: bool)
    ensures
        same == (a@ == b@),
{
    let x = a.as_bytes();
    let y = b.as_bytes();
    if x.len() != y.len() {
        return false;
    }
    let mut i: usize = 0;
    while i < x.len()
        invariant
            i <= x@.len(),
            x@ == a.spec_bytes(),
            y@ == b.spec_bytes(),
            x@.len() == y@.len(),
            forall|k: int| 0 <= k < i ==> x@[k] == y@[k],
        decreases x.len() - i,
    {
        if x[i] != y[i] {
            return false;
        }
        i = i + 1;
    }
    proof {
        assert(x@ =~= y@);
        encode_utf8_decode_utf8(a@);
        encode_utf8_decode_utf8(b@);
    }
    true
}

/// The merchants that a customer has dealt with; the first eight of them.
#[derive(Debug, Clone, Copy)]
pub struct KnownMerchants<'a> {
    pub items: [&'a str; 8],
    pub len: usize,
}

impl<'a> View for KnownMerchants<'a> {
    type V = Seq<Seq<char>>;

    open spec fn view(&self) -> Seq<Seq<char>> {
        Seq::new(self.len as nat, |i: int| self.items@[i]@)
    }
}

impl<'a> Default for KnownMerchants<'a> {
    fn default() -> (merchants: Self)
        ensures
            merchants@.len() == 0,
            forall|i: int| 0 <= i < 8 ==> (#[trigger] merchants.items@[i])@ == ""@,
    {
        KnownMerchants { items: [""; 8], len: 0 }
    }
}

impl<'a> KnownMerchants<'a> {
    pub fn from_slice(slice: &[&'a str]) -> (merchants: Self)
        ensures
            merchants.len == (if slice@.len() < 8 {
                slice@.len()
            } else {
                8
            }),
            forall|i: int| 0 <= i < merchants.len ==> #[trigger] merchants@[i] == slice@[i]@,
            forall|i: int|
                0 <= i < merchants.len ==> (#[trigger] merchants.items@[i])@ == slice@[i]@,
            forall|i: int| merchants.len <= i < 8 ==> (#[trigger] merchants.items@[i])@ == ""@,
    {
        let len: usize = if slice.len() < 8 {
            slice.len()
        } else {
            8
        };
        let mut items = [""; 8];
        let mut i: usize = 0;
        while i < len
            invariant
                i <= len <= 8,
                len <= slice@.len(),
                forall|k: int| 0 <= k < i ==> items@[k]@ == #[trigger] slice@[k]@,
                forall|k: int| i <= k < 8 ==> (#[trigger] items@[k])@ == ""@,
            decreases len - i,
        {
            items[i] = slice[i];
            i = i + 1;
        }
        KnownMerchants { items, len }
    }

    pub fn contains(&self, merchant_id: &str) -> (known: bool)
        requires
            self.len <= 8,
        ensures
            known == self@.contains(merchant_id@),
            known <==> exists|i: int|
                0 <= i < self.len && (#[trigger] self.items@[i])@ == merchant_id@,
    {
        let mut i: usize = 0;
        while i < self.len
            invariant
                i <= self.len <= 8,
                forall|k: int| 0 <= k < i ==> self@[k] != merchant_id@,
            decreases self.len - i,
        {
            assert(self@[i as int] == self.items@[i as int]@);
            if same_str(self.items[i], merchant_id) {
                return true;
            }
            i = i + 1;
        }
        assert forall|k: int| 0 <= k < self.len implies (#[trigger] self.items@[k])@
            != merchant_id@ by {
            assert(self@[k] != merchant_id@);
        }
        false
    }
}

/// The amount of the transaction, its number of installments, the amount
/// against the customer's average, and when it was requested.
#[derive(Debug, Clone, Copy)]
pub struct Transaction {
    pub amount: i16,
    pub installments: i16,
    pub amount_vs_avg: i16,
    pub requested_at: FastDateTime,
}

#[derive(Debug, Clone, Copy)]
pub struct Customer<'a> {
    pub tx_count_24h: i16,
    pub known_merchants: KnownMerchants<'a>,
}

#[derive(Debug, Clone, Copy)]
pub struct Merchant<'a> {
    pub id: &'a str,
    pub mcc: &'a str,
    pub avg_amount: i16,
}

#[derive(Debug, Clone, Copy)]
pub struct Terminal {
    pub is_online: bool,
    pub card_present: bool,
    pub km_from_home: i16,
}

/// The time since the customer's last transaction and its distance.
#[derive(Debug, Clone, Copy)]
pub struct LastTransaction {
    pub minutes: i16,
    pub km_from_current: i16,
}

/// What a request says about a transaction.
#[derive(Debug, Clone, Copy)]
pub struct Payload<'a> {
    pub transaction: Transaction,
    pub customer: Customer<'a>,
    pub merchant: Merchant<'a>,
    pub terminal: Terminal,
    pub last_transaction: Option<LastTransaction>,
}

/// The label of a reference: one for fraud, zero for everything else.
pub fn fraud_label(label: &str) -> (value: u8)
    ensures
        value == (if label@ == "fraud"@ {
            1u8
        } else {
            0u8
        }),
{
    if same_str(label, "fraud") {
        1
    } else {
        0
    }
}

/// Of all labels one alone stands for fraud.
pub proof fn law_fraud_label(label: &str, value: u8)
    requires
        call_ensures(fraud_label, (label,), value),
    ensures
        value == 1 <==> label@ == seq!['f', 'r', 'a', 'u', 'd'],
        value == 0 <==> label@ != seq!['f', 'r', 'a', 'u', 'd'],
{
    reveal_strlit("fraud");
    assert("fraud"@ =~= seq!['f', 'r', 'a', 'u', 'd']);
}

/// Of the merchants that are listed the first eight are known, and no others.
pub proof fn law_known_merchants(
    slice: &[&str],
    merchants: KnownMerchants<'_>,
    id: &str,
    known: bool,
)
    requires
        call_ensures(KnownMerchants::from_slice, (slice,), merchants),
        call_ensures(KnownMerchants::contains, (&merchants, id), known),
    ensures
        merchants.len <= 8,
        known <==> exists|i: int| 0 <= i < 8 && i < slice@.len() && (#[trigger] slice@[i])@ == id@,
{
    if known {
        let i = choose|i: int| 0 <= i < merchants.len && (#[trigger] merchants.items@[i])@ == id@;
        assert(slice@[i]@ == id@);
    }
    if exists|i: int| 0 <= i < 8 && i < slice@.len() && (#[trigger] slice@[i])@ == id@ {
        let i = choose|i: int| 0 <= i < 8 && i < slice@.len() && (#[trigger] slice@[i])@ == id@;
        assert(merchants.items@[i]@ == id@);
    }
}

} // verus!
