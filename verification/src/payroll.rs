//! Paying many recipients from one sender in one call.

use vstd::prelude::*;
use crate::address::Address;
use crate::error::ContractError;

verus! {

/// One transfer for the host to carry out.
#[derive(Clone, Copy, Debug, PartialEq, Eq, Structural)]
pub struct Transfer {
    pub token: Address,
    pub from: Address,
    pub to: Address,
    pub amount: i128,
}

/// The sum of the amounts.
pub open spec fn total(amounts: Seq<i128>) -> int
    decreases amounts.len(),
{
    if amounts.len() == 0 {
        0
    } else {
        total(amounts.drop_last()) + amounts.last()
    }
}

/// The sum of the amounts as the machine type holds it: the sum itself, or
/// the least value of the type where the sum is below it.
pub open spec fn total_paid(amounts: Seq<i128>) -> int {
    if total(amounts) < i128::MIN {
        i128::MIN as int
    } else {
        total(amounts)
    }
}

/// How many pairs two lists of these lengths make: the shorter length.
pub open spec fn paired(recipients: nat, amounts: nat) -> nat {
    if recipients <= amounts {
        recipients
    } else {
        amounts
    }
}

/// The transfers of a payroll: to each recipient its amount, in order, as
/// far as both lists reach.
pub open spec fn payroll(
    token: Address,
    sender: Address,
    recipients: Seq<Address>,
    amounts: Seq<i128>,
) -> Seq<Transfer> {
    Seq::new(
        paired(recipients.len(), amounts.len()),
        |i: int| Transfer { token, from: sender, to: recipients[i], amount: amounts[i] },
    )
}

/// What a bulk transfer comes to: the failure, or the transfers to make and
/// their sum.
pub open spec fn bulk_transfer_result(
    sender: Address,
    token: Address,
    recipients: Seq<Address>,
    amounts: Seq<i128>,
    authorized: bool,
    balance: i128,
) -> Result<(Seq<Transfer>, int), ContractError> {
    if !authorized {
        Err(ContractError::Unauthorized)
    } else if recipients.len() != amounts.len() {
        Err(ContractError::LengthMismatch)
    } else if balance < total(amounts) {
        Err(ContractError::InsufficientBalance)
    } else {
        Ok((payroll(token, sender, recipients, amounts), total_paid(amounts)))
    }
}

/// Two to the power 127: one more than the largest amount.
spec fn unit() -> int {
    i128::MAX + 1
}

/// A sum of amounts: within the machine type, or beyond it on either side.
enum Sum {
    /// The sum is above the largest value.
    Above,
    /// The sum is this value.
    Within(i128),
    /// The sum is below the least value.
    Below,
}

/// The sum of `amounts`. It is kept exactly, as a count of whole units of
/// two to the power 127 and a rest below one unit, so that no partial sum
/// leaves the range of the machine type.
fn sum_of(amounts: &Vec<i128>) -> (sum: Sum)
    ensures
        match sum {
            Sum::Above => total(amounts@) > i128::MAX,
            Sum::Within(value) => total(amounts@) == value,
            Sum::Below => total(amounts@) < i128::MIN,
        },
{
    let mut units: i128 = 0;
    let mut rest: i128 = 0;
    let mut i: usize = 0;
    while i < amounts.len()
        invariant
            i <= amounts.len(),
            0 <= rest,
            -(i as int) <= units <= i,
            units * unit() + rest == total(amounts@.take(i as int)),
        decreases amounts.len() - i,
    {
        let amount = amounts[i];
        proof {
            assert(amounts@.take(i + 1).drop_last() =~= amounts@.take(i as int));
            assert((units + 1) * unit() == units * unit() + unit()) by (nonlinear_arith);
            assert((units - 1) * unit() == units * unit() - unit()) by (nonlinear_arith);
        }
        if amount >= 0 {
            if rest > i128::MAX - amount {
                rest = rest - (i128::MAX - amount) - 1;
                units = units + 1;
            } else {
                rest = rest + amount;
            }
        } else {
            let lowered = rest + amount;
            if lowered >= 0 {
                rest = lowered;
            } else {
                rest = lowered + i128::MAX + 1;
                units = units - 1;
            }
        }
        i += 1;
    }
    proof {
        assert(amounts@.take(amounts.len() as int) =~= amounts@);
        let u = unit();
        assert(units >= 1 ==> units * u >= u) by (nonlinear_arith)
            requires
                u > 0,
        ;
        assert(units <= -2 ==> units * u <= -2 * u) by (nonlinear_arith)
            requires
                u > 0,
        ;
        assert(units == 0 ==> units * u == 0) by (nonlinear_arith);
        assert(units == -1 ==> units * u == -u) by (nonlinear_arith);
    }
    if units > 0 {
        Sum::Above
    } else if units == 0 {
        Sum::Within(rest)
    } else if units == -1 {
        Sum::Within(rest + i128::MIN)
    } else {
        Sum::Below
    }
}

/// The bulk payment service: one sender pays a list of recipients in one
/// token.
pub struct BulkPayroll;

impl BulkPayroll {
    /// Pays `amounts[i]` of `token_id` from `sender` to `recipients[i]`, for
    /// every `i`: returns the transfers for the host to carry out, in order,
    /// and the sum of their amounts.
    ///
    /// `authorized` is whether the host has authorized this call for
    /// `sender`, `balance` what `sender` holds of the token. The two lists
    /// must pair up and the balance must cover the sum of the amounts. The
    /// sum is compared as it is, whatever its size; it is returned as the
    /// machine type holds it, which is the least value of the type where
    /// negative amounts bring the sum below it.
    pub fn bulk_transfer(
        sender: Address,
        token_id: Address,
        recipients: &Vec<Address>,
        amounts: &Vec<i128>,
        authorized: bool,
        balance: i128,
    ) -> (res: Result<(Vec<Transfer>, i128), ContractError>)
        ensures
            res is Ok <==> bulk_transfer_result(
                sender,
                token_id,
                recipients@,
                amounts@,
                authorized,
                balance,
            ) is Ok,
            res is Ok ==> res->Ok_0.0@ == payroll(token_id, sender, recipients@, amounts@),
            res is Ok ==> res->Ok_0.1 == total_paid(amounts@),
            res is Err ==> Err::<(Seq<Transfer>, int), ContractError>(res->Err_0)
                == bulk_transfer_result(
                sender,
                token_id,
                recipients@,
                amounts@,
                authorized,
                balance,
            ),
    {
        if !authorized {
            return Err(ContractError::Unauthorized);
        }
        if recipients.len() != amounts.len() {
            return Err(ContractError::LengthMismatch);
        }
        let total: i128 = match sum_of(amounts) {
            Sum::Above => {
                return Err(ContractError::InsufficientBalance);
            },
            Sum::Within(value) => value,
            Sum::Below => i128::MIN,
        };
        match BulkPayroll::transfer_asset(sender, token_id, balance, total, recipients, amounts) {
            Ok(transfers) => Ok((transfers, total)),
            Err(error) => Err(error),
        }
    }

    /// The transfers that pay each recipient its amount, in order and as far
    /// as both lists reach, where `balance` covers `total`.
    fn transfer_asset(
        sender: Address,
        token_id: Address,
        balance: i128,
        total: i128,
        recipients: &Vec<Address>,
        amounts: &Vec<i128>,
    ) -> (res: Result<Vec<Transfer>, ContractError>)
        ensures
            res is Ok <==> balance >= total,
            res is Ok ==> res->Ok_0@ == payroll(token_id, sender, recipients@, amounts@),
            res is Err ==> res->Err_0 == ContractError::InsufficientBalance,
    {
        if balance < total {
            return Err(ContractError::InsufficientBalance);
        }
        let pairs: usize = if recipients.len() <= amounts.len() {
            recipients.len()
        } else {
            amounts.len()
        };
        let mut transfers: Vec<Transfer> = Vec::new();
        let mut i: usize = 0;
        while i < pairs
            invariant
                i <= pairs,
                pairs == paired(recipients@.len(), amounts@.len()),
                transfers@ == payroll(token_id, sender, recipients@, amounts@).take(i as int),
            decreases pairs - i,
        {
            transfers.push(
                Transfer { token: token_id, from: sender, to: recipients[i], amount: amounts[i] },
            );
            proof {
                let all = payroll(token_id, sender, recipients@, amounts@);
                assert(all.take(i as int).push(all[i as int]) =~= all.take(i + 1));
            }
            i += 1;
        }
        proof {
            let all = payroll(token_id, sender, recipients@, amounts@);
            assert(all.take(pairs as int) =~= all);
        }
        Ok(transfers)
    }
}

} // verus!
