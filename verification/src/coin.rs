use crate::bytes::{le_bytes, le_value, lemma_le_round_trip, lemma_u64_fits};
use crate::codec::{decode_pair, encode_pair, is_pair, pair_id, pair_number};
use crate::error::ExecutionError;
use vstd::prelude::*;

verus! {

/// A coin: the id of the object that holds it, and its balance.
#[derive(Debug, PartialEq, Eq)]
pub struct Coin {
    pub id: [u8; 32],
    pub balance: u64,
}

/// Whether `contents` is the serialized form of a coin.
pub open spec fn is_coin(contents: Seq<u8>) -> bool {
    is_pair(contents)
}

/// The balance of the coin that `contents` is the serialized form of.
pub open spec fn coin_balance(contents: Seq<u8>) -> nat {
    pair_number(contents)
}

/// The serialized form of the coin with the id of `contents` and the balance `balance`.
pub open spec fn coin_with_balance(contents: Seq<u8>, balance: u64) -> Seq<u8> {
    pair_id(contents) + le_bytes(balance as nat, 8)
}

impl Coin {
    /// Reads a coin from its serialized form.
    pub fn from_bcs_bytes(content: &Vec<u8>) -> (coin: Result<Coin, bcs::Error>)
        ensures
            coin is Ok <==> is_coin(content@),
            coin matches Ok(c) ==> c.id@ == pair_id(content@) && c.balance == coin_balance(content@),
    {
        match decode_pair(content) {
            Ok(decoded) => Ok(Coin { id: decoded.0, balance: decoded.1 }),
            Err(error) => Err(error),
        }
    }

    /// The serialized form of the coin.
    pub fn to_bcs_bytes(&self) -> (bytes: Result<Vec<u8>, bcs::Error>)
        ensures
            bytes is Ok,
            bytes matches Ok(b) ==> b@ == self.id@ + le_bytes(self.balance as nat, 8),
    {
        encode_pair(self.id, self.balance)
    }

    /// Adds `amount` to the balance, unless the sum does not fit; then the coin stays as it is.
    pub fn add(&mut self, amount: u64) -> (result: Result<(), ExecutionError>)
        ensures
            final(self).id == old(self).id,
            old(self).balance + amount <= u64::MAX ==> result == Ok::<
                (),
                ExecutionError,
            >(()) && final(self).balance == old(self).balance + amount,
            old(self).balance + amount > u64::MAX ==> result == Err::<
                (),
                ExecutionError,
            >(ExecutionError::CoinBalanceOverflow) && *final(self) == *old(self),
    {
        match self.balance.checked_add(amount) {
            Some(balance) => {
                self.balance = balance;
                Ok(())
            },
            None => Err(ExecutionError::CoinBalanceOverflow),
        }
    }
}

/// The balance of a coin is a `u64`.
pub proof fn lemma_coin_balance_fits(contents: Seq<u8>)
    requires
        is_coin(contents),
    ensures
        coin_balance(contents) <= u64::MAX,
{
    crate::bytes::lemma_le_bound(contents.skip(32));
    lemma_u64_fits();
}

/// The serialized form of a coin reads back as that coin: it is a coin, it keeps the id, and its
/// balance is the one that was written.
pub proof fn law_coin_round_trip(contents: Seq<u8>, balance: u64)
    requires
        is_coin(contents),
    ensures
        is_coin(coin_with_balance(contents, balance)),
        pair_id(coin_with_balance(contents, balance)) == pair_id(contents),
        coin_balance(coin_with_balance(contents, balance)) == balance,
{
    lemma_u64_fits();
    lemma_le_round_trip(balance as nat, 8);
    let written = coin_with_balance(contents, balance);
    assert(written.skip(32) =~= le_bytes(balance as nat, 8));
    assert(written.take(32) =~= contents.take(32));
}

/// A coin is serialized as 40 bytes, and its balance is what the last eight of them count, the
/// lowest first.
pub proof fn law_balance_is_in_the_last_bytes(contents: Seq<u8>)
    ensures
        is_coin(contents) <==> contents.len() == 40,
        contents.len() == 40 ==> pair_id(contents) == contents.subrange(0, 32),
        contents.len() == 40 ==> coin_balance(contents) == contents[32] + 0x100 * contents[33]
            + 0x1_0000 * contents[34] + 0x100_0000 * contents[35] + 0x1_0000_0000 * contents[36]
            + 0x100_0000_0000 * contents[37] + 0x1_0000_0000_0000 * contents[38]
            + 0x100_0000_0000_0000 * contents[39],
{
    if contents.len() == 40 {
        assert(contents.subrange(0, 32) =~= contents.take(32));
        assert(contents.skip(39).drop_first() =~= Seq::<u8>::empty());
        assert(le_value(Seq::<u8>::empty()) == 0);
        assert(le_value(contents.skip(39)) == contents[39]);
        assert(contents.skip(38).drop_first() =~= contents.skip(39));
        assert(contents.skip(37).drop_first() =~= contents.skip(38));
        assert(contents.skip(36).drop_first() =~= contents.skip(37));
        assert(contents.skip(35).drop_first() =~= contents.skip(36));
        assert(contents.skip(34).drop_first() =~= contents.skip(35));
        assert(contents.skip(33).drop_first() =~= contents.skip(34));
        assert(contents.skip(32).drop_first() =~= contents.skip(33));
        assert(le_value(contents.skip(38)) == contents[38] + 256 * le_value(contents.skip(39)));
        assert(le_value(contents.skip(37)) == contents[37] + 256 * le_value(contents.skip(38)));
        assert(le_value(contents.skip(36)) == contents[36] + 256 * le_value(contents.skip(37)));
        assert(le_value(contents.skip(35)) == contents[35] + 256 * le_value(contents.skip(36)));
        assert(le_value(contents.skip(34)) == contents[34] + 256 * le_value(contents.skip(35)));
        assert(le_value(contents.skip(33)) == contents[33] + 256 * le_value(contents.skip(34)));
        assert(le_value(contents.skip(32)) == contents[32] + 256 * le_value(contents.skip(33)));
    }
}

} // verus!
