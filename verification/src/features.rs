//! Category tables and decisions on plain values that the feature encoding
//! and the scoring endpoint rely on.

use vstd::prelude::*;
use vstd::string::StringSliceAdditionalSpecFns;
use crate::knn::K;

verus! {

/// The four-digit merchant category code spelled by `s`, if `s` is exactly
/// four ASCII digits.
pub open spec fn merchant_code(s: Seq<u8>) -> Option<int> {
    if s.len() == 4 && forall|k: int| 0 <= k < 4 ==> 48 <= #[trigger] s[k] <= 57 {
        Some(1000 * (s[0] - 48) + 100 * (s[1] - 48) + 10 * (s[2] - 48) + (s[3] - 48))
    } else {
        None
    }
}

/// Risk, in hundredths, of a merchant category code.
pub open spec fn risk_of_code(code: int) -> u8 {
    if code == 4511 {
        35
    } else if code == 5311 {
        25
    } else if code == 5411 {
        15
    } else if code == 5812 {
        30
    } else if code == 5912 {
        20
    } else if code == 5944 {
        45
    } else if code == 5999 {
        50
    } else if code == 7801 {
        80
    } else if code == 7802 {
        75
    } else if code == 7995 {
        85
    } else {
        50
    }
}

/// Risk, in hundredths, of the merchant category spelled by `s`; a category
/// outside the table has risk 50.
pub open spec fn mcc_risk_of(s: Seq<u8>) -> u8 {
    match merchant_code(s) {
        Some(code) => risk_of_code(code),
        None => 50,
    }
}

/// Risk of a merchant category code, in hundredths (35 stands for 0.35).
pub fn mcc_risk(mcc: &str) -> (risk: u8)
    ensures
        risk == mcc_risk_of(mcc.spec_bytes()),
        risk <= 85,
{
    let b = mcc.as_bytes();
    if b.len() != 4 {
        return 50;
    }
    let mut code: u32 = 0;
    let mut k: usize = 0;
    while k < 4
        invariant
            k <= 4,
            b@ == mcc.spec_bytes(),
            b@.len() == 4,
            forall|j: int| 0 <= j < k ==> 48 <= #[trigger] b@[j] <= 57,
            code == if k == 0 {
                0
            } else if k == 1 {
                b@[0] - 48
            } else if k == 2 {
                10 * (b@[0] - 48) + (b@[1] - 48)
            } else if k == 3 {
                100 * (b@[0] - 48) + 10 * (b@[1] - 48) + (b@[2] - 48)
            } else {
                1000 * (b@[0] - 48) + 100 * (b@[1] - 48) + 10 * (b@[2] - 48) + (b@[3] - 48)
            },
        decreases 4 - k,
    {
        let c = b[k];
        if c < 48 || c > 57 {
            assert(merchant_code(b@) is None);
            return 50;
        }
        code = 10 * code + (c - 48) as u32;
        k = k + 1;
    }
    assert(merchant_code(b@) == Some(code as int));
    match code {
        4511 => 35,
        5311 => 25,
        5411 => 15,
        5812 => 30,
        5912 => 20,
        5944 => 45,
        5999 => 50,
        7801 => 80,
        7802 => 75,
        7995 => 85,
        _ => 50,
    }
}

/// Whether the customer already knows the merchant `id`.
pub fn is_known_merchant(known: &[String], id: &String) -> (known_merchant: bool)
    ensures
        known_merchant == exists|i: int| 0 <= i < known@.len() && #[trigger] known@[i]@ == id@,
{
    let mut i: usize = 0;
    while i < known.len()
        invariant
            i <= known@.len(),
            forall|j: int| 0 <= j < i ==> #[trigger] known@[j]@ != id@,
        decreases known@.len() - i,
    {
        if known[i] == *id {
            return true;
        }
        i = i + 1;
    }
    false
}

/// A transaction is approved when its fraud score, `fraud_count / K`, is
/// below `0.6`.
pub fn is_approved(fraud_count: usize) -> (approved: bool)
    ensures
        approved == (10 * fraud_count < 6 * K),
{
    fraud_count < 3
}

/// The four ASCII digits `a`, `b`, `c`, `d`.
pub open spec fn digits(a: int, b: int, c: int, d: int) -> Seq<u8> {
    seq![(48 + a) as u8, (48 + b) as u8, (48 + c) as u8, (48 + d) as u8]
}

/// The category risk table, read on the raw bytes of the category: each of
/// the ten listed codes, spelled exactly, has its own risk, and every other
/// byte string (another four-digit code such as `7311`, a code of another
/// length, anything that is not digits) has risk 50.
pub proof fn lemma_mcc_risk_table(s: Seq<u8>)
    ensures
        s == digits(4, 5, 1, 1) ==> mcc_risk_of(s) == 35,
        s == digits(5, 3, 1, 1) ==> mcc_risk_of(s) == 25,
        s == digits(5, 4, 1, 1) ==> mcc_risk_of(s) == 15,
        s == digits(5, 8, 1, 2) ==> mcc_risk_of(s) == 30,
        s == digits(5, 9, 1, 2) ==> mcc_risk_of(s) == 20,
        s == digits(5, 9, 4, 4) ==> mcc_risk_of(s) == 45,
        s == digits(5, 9, 9, 9) ==> mcc_risk_of(s) == 50,
        s == digits(7, 8, 0, 1) ==> mcc_risk_of(s) == 80,
        s == digits(7, 8, 0, 2) ==> mcc_risk_of(s) == 75,
        s == digits(7, 9, 9, 5) ==> mcc_risk_of(s) == 85,
        ({
            &&& s != digits(4, 5, 1, 1)
            &&& s != digits(5, 3, 1, 1)
            &&& s != digits(5, 4, 1, 1)
            &&& s != digits(5, 8, 1, 2)
            &&& s != digits(5, 9, 1, 2)
            &&& s != digits(5, 9, 4, 4)
            &&& s != digits(5, 9, 9, 9)
            &&& s != digits(7, 8, 0, 1)
            &&& s != digits(7, 8, 0, 2)
            &&& s != digits(7, 9, 9, 5)
        }) ==> mcc_risk_of(s) == 50,
{
    if let Some(code) = merchant_code(s) {
        let (a, b, c, d) = (s[0] - 48, s[1] - 48, s[2] - 48, s[3] - 48);
        assert(0 <= a <= 9 && 0 <= b <= 9 && 0 <= c <= 9 && 0 <= d <= 9) by {
            assert(48 <= s[0] <= 57);
            assert(48 <= s[1] <= 57);
            assert(48 <= s[2] <= 57);
            assert(48 <= s[3] <= 57);
        }
        assert(code == 1000 * a + 100 * b + 10 * c + d);
        if code == 4511 {
            assert(s =~= digits(4, 5, 1, 1));
        }
        if code == 5311 {
            assert(s =~= digits(5, 3, 1, 1));
        }
        if code == 5411 {
            assert(s =~= digits(5, 4, 1, 1));
        }
        if code == 5812 {
            assert(s =~= digits(5, 8, 1, 2));
        }
        if code == 5912 {
            assert(s =~= digits(5, 9, 1, 2));
        }
        if code == 5944 {
            assert(s =~= digits(5, 9, 4, 4));
        }
        if code == 5999 {
            assert(s =~= digits(5, 9, 9, 9));
        }
        if code == 7801 {
            assert(s =~= digits(7, 8, 0, 1));
        }
        if code == 7802 {
            assert(s =~= digits(7, 8, 0, 2));
        }
        if code == 7995 {
            assert(s =~= digits(7, 9, 9, 5));
        }
    }
    assert(merchant_code(digits(4, 5, 1, 1)) == Some(4511int)) by {
        assert(digits(4, 5, 1, 1)[0] == 52u8);
    }
    assert(merchant_code(digits(5, 3, 1, 1)) == Some(5311int)) by {
        assert(digits(5, 3, 1, 1)[0] == 53u8);
    }
    assert(merchant_code(digits(5, 4, 1, 1)) == Some(5411int)) by {
        assert(digits(5, 4, 1, 1)[0] == 53u8);
    }
    assert(merchant_code(digits(5, 8, 1, 2)) == Some(5812int)) by {
        assert(digits(5, 8, 1, 2)[0] == 53u8);
    }
    assert(merchant_code(digits(5, 9, 1, 2)) == Some(5912int)) by {
        assert(digits(5, 9, 1, 2)[0] == 53u8);
    }
    assert(merchant_code(digits(5, 9, 4, 4)) == Some(5944int)) by {
        assert(digits(5, 9, 4, 4)[0] == 53u8);
    }
    assert(merchant_code(digits(5, 9, 9, 9)) == Some(5999int)) by {
        assert(digits(5, 9, 9, 9)[0] == 53u8);
    }
    assert(merchant_code(digits(7, 8, 0, 1)) == Some(7801int)) by {
        assert(digits(7, 8, 0, 1)[0] == 55u8);
    }
    assert(merchant_code(digits(7, 8, 0, 2)) == Some(7802int)) by {
        assert(digits(7, 8, 0, 2)[0] == 55u8);
    }
    assert(merchant_code(digits(7, 9, 9, 5)) == Some(7995int)) by {
        assert(digits(7, 9, 9, 5)[0] == 55u8);
    }
}

} // verus!
