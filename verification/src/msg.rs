use crate::validation::{PubKey, Signature};
use vstd::prelude::*;
use vstd::string::{StrSliceExecFns, StringExecFns};

verus! {

/// A token amount of one denomination.
#[derive(Clone, Debug, PartialEq, Eq)]
pub struct Coin {
    pub denom: String,
    pub amount: u128,
}

pub ghost struct CoinV {
    pub denom: Seq<char>,
    pub amount: u128,
}

impl View for Coin {
    type V = CoinV;

    open spec fn view(&self) -> CoinV {
        CoinV { denom: self.denom@, amount: self.amount }
    }
}

/// An opaque identifier that groups deposits under one external job. It is a
/// ledger key and has no further meaning inside this contract.
#[derive(Clone, Debug, PartialEq, Eq)]
pub struct JobId(pub String);

impl View for JobId {
    type V = Seq<char>;

    open spec fn view(&self) -> Seq<char> {
        self.0@
    }
}

/// One ledger position: a coin held under a job.
#[derive(Clone, Debug, PartialEq, Eq)]
pub struct JobInfo {
    pub coin: Coin,
    pub job_id: JobId,
}

pub ghost struct JobInfoV {
    pub coin: CoinV,
    pub job_id: Seq<char>,
}

impl View for JobInfo {
    type V = JobInfoV;

    open spec fn view(&self) -> JobInfoV {
        JobInfoV { coin: self.coin@, job_id: self.job_id@ }
    }
}

/// A validator as supplied to an instantiation or a validator-set update: a
/// public key, its stake, and the addresses it trusts to submit privileged
/// messages.
#[derive(Clone, Debug, PartialEq, Eq)]
pub struct Validator {
    pub public_key: PubKey,
    pub stake: u128,
    pub address: Vec<String>,
}

pub ghost struct ValidatorV {
    pub public_key: Seq<u8>,
    pub stake: u128,
    pub address: Seq<Seq<char>>,
}

impl View for Validator {
    type V = ValidatorV;

    open spec fn view(&self) -> ValidatorV {
        ValidatorV {
            public_key: self.public_key@,
            stake: self.stake,
            address: self.address.deep_view(),
        }
    }
}

/// The instantiation request: the initial validator set.
#[derive(Clone, Debug, PartialEq, Eq)]
pub struct InstantiateMsg {
    pub valset: Vec<Validator>,
}

/// An inbound request.
#[derive(Clone, Debug, PartialEq, Eq)]
pub enum ExecuteMsg {
    Deposit { job_id: JobId },
    Withdraw { withdraw_info: Vec<JobInfo> },
    WithConsensus { message_id: String, raw_json: String, signatures: Vec<Signature> },
}

/// A privileged action, decoded from the raw payload of a consensus message
/// after the payload has been authorized.
#[derive(Clone, Debug, PartialEq, Eq)]
pub enum ConsensusMsg {
    Stub {},
    UpdateValset { valset: Vec<Validator> },
}

/// A read-only request.
#[derive(Clone, Debug, PartialEq, Eq)]
pub enum QueryMsg {
    GetDepositInfo { address: String },
    GetJobInfo { job_id: JobId },
}

/// A read-only answer.
#[derive(Clone, Debug, PartialEq, Eq)]
pub enum QueryResult {
    Jobs(Vec<JobInfo>),
    Balance(Vec<Coin>),
}

/// The character for one decimal digit.
pub open spec fn digit_char(d: int) -> char {
    if d == 0 {
        '0'
    } else if d == 1 {
        '1'
    } else if d == 2 {
        '2'
    } else if d == 3 {
        '3'
    } else if d == 4 {
        '4'
    } else if d == 5 {
        '5'
    } else if d == 6 {
        '6'
    } else if d == 7 {
        '7'
    } else if d == 8 {
        '8'
    } else {
        '9'
    }
}

/// The decimal digits of a positive integer, most significant first; empty
/// for zero and below.
pub open spec fn dec_digits(n: int) -> Seq<char>
    decreases n,
{
    if n <= 0 {
        Seq::empty()
    } else {
        dec_digits(n / 10).push(digit_char(n % 10))
    }
}

/// The decimal representation of an integer: `0` is "0", a negative number
/// carries a leading minus sign.
pub open spec fn decimal_of(n: int) -> Seq<char> {
    if n == 0 {
        seq!['0']
    } else if n < 0 {
        seq!['-'] + dec_digits(-n)
    } else {
        dec_digits(n)
    }
}

/// The digit characters of `ds`, read from the last to the first.
spec fn rev_digit_chars(ds: Seq<u8>) -> Seq<char> {
    Seq::new(ds.len(), |i: int| digit_char(ds[ds.len() - 1 - i] as int))
}

/// A job id holding the decimal representation of a number.
pub fn job_id(id: i32) -> (r: JobId)
    ensures
        r@ == decimal_of(id as int),
{
    let digits = "0123456789";
    proof {
        reveal_strlit("0123456789");
        assert forall|i: int| 0 <= i < digits@.len() implies (digits@[i] as u32) < 128 by {}
        assert(digits.is_ascii());
    }
    let mut s = String::new();
    if id == 0 {
        let zero = "0";
        proof {
            reveal_strlit("0");
        }
        s.append(zero);
        proof {
            assert(s@ =~= decimal_of(0));
        }
        return JobId(s);
    }
    let neg = id < 0;
    if neg {
        let minus = "-";
        proof {
            reveal_strlit("-");
        }
        s.append(minus);
    }
    let wide: i64 = id as i64;
    let mut m: u64 = if neg {
        (-wide) as u64
    } else {
        wide as u64
    };
    let ghost mag: int = m as int;
    let mut ds: Vec<u8> = Vec::new();
    proof {
        assert(rev_digit_chars(ds@) =~= Seq::<char>::empty());
        assert(dec_digits(mag) + rev_digit_chars(ds@) =~= dec_digits(mag));
    }
    while m > 0
        invariant
            mag > 0,
            forall|i: int| 0 <= i < ds@.len() ==> (#[trigger] ds@[i]) < 10,
            dec_digits(mag) == dec_digits(m as int) + rev_digit_chars(ds@),
        decreases m,
    {
        let d = (m % 10) as u8;
        let ghost ds_old = ds@;
        let ghost m_old = m as int;
        ds.push(d);
        m = m / 10;
        proof {
            assert(dec_digits(m_old) == dec_digits(m_old / 10).push(digit_char(m_old % 10)));
            assert(rev_digit_chars(ds@) =~= seq![digit_char(d as int)] + rev_digit_chars(ds_old));
            assert(dec_digits(m_old / 10).push(digit_char(m_old % 10)) + rev_digit_chars(ds_old)
                =~= dec_digits(m_old / 10) + (seq![digit_char(m_old % 10)] + rev_digit_chars(
                ds_old,
            )));
        }
    }
    proof {
        assert(dec_digits(0) + rev_digit_chars(ds@) =~= rev_digit_chars(ds@));
        assert(dec_digits(mag) == rev_digit_chars(ds@));
    }
    let ghost sign: Seq<char> = s@;
    let n = ds.len();
    let mut j: usize = 0;
    while j < n
        invariant
            j <= n,
            n == ds@.len(),
            forall|i: int| 0 <= i < ds@.len() ==> (#[trigger] ds@[i]) < 10,
            digits@ =~= seq!['0', '1', '2', '3', '4', '5', '6', '7', '8', '9'],
            digits.is_ascii(),
            s@ == sign + rev_digit_chars(ds@).take(j as int),
        decreases n - j,
    {
        let d = ds[n - 1 - j];
        let piece = digits.substring_ascii(d as usize, d as usize + 1);
        proof {
            assert(piece@ =~= seq![digits@[d as int]]);
            assert(digits@[d as int] == digit_char(d as int));
        }
        s.append(piece);
        proof {
            assert(rev_digit_chars(ds@)[j as int] == digit_char(
                ds@[ds@.len() - 1 - j as int] as int,
            ));
            assert(s@ =~= sign + rev_digit_chars(ds@).take(j as int + 1));
        }
        j = j + 1;
    }
    proof {
        assert(rev_digit_chars(ds@).take(n as int) =~= rev_digit_chars(ds@));
        if neg {
            assert(mag == -(id as int));
            assert(s@ =~= seq!['-'] + dec_digits(-(id as int)));
        } else {
            assert(mag == id as int);
            assert(sign =~= Seq::<char>::empty());
            assert(s@ =~= dec_digits(id as int));
        }
    }
    JobId(s)
}

} // verus!
