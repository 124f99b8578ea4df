use vstd::prelude::*;

use crate::address::{identity_digest, valid_address, MultiChainAddrHash};
use crate::codec::hex_encoded;
use crate::error::BridgeContractError;
use crate::table::AmountTable;
use crate::u256::{be_bytes, decimal_text, lemma_be_bytes, max_value, text_outcome, U256};

verus! {

/// Tokens moved in from another chain, by digest and number.
#[derive(Debug, Clone)]
pub struct BridgeInComplex {
    pub token_address: MultiChainAddrHash,
    pub token_amount: U256,
    pub recipient: MultiChainAddrHash,
    pub from_chain: Option<U256>,
}

/// Tokens moved in from another chain, as the texts that were given.
#[derive(Debug, Clone)]
pub struct BridgeInSimple {
    pub token_address: String,
    pub token_amount: String,
    pub recipient: String,
    pub from_chain: Option<String>,
}

/// Tokens moved out to another chain, by digest and number.
#[derive(Debug, Clone)]
pub struct BridgeOutComplex {
    pub token_address: MultiChainAddrHash,
    pub token_amount: U256,
    pub recipient: MultiChainAddrHash,
    pub target_chain: Option<U256>,
}

/// Tokens moved out to another chain, as the texts that were given.
#[derive(Debug, Clone)]
pub struct BridgeOutSimple {
    pub token_address: String,
    pub token_amount: String,
    pub recipient: String,
    pub target_chain: Option<String>,
}

/// The ledger was created with its whole supply credited to its deployer.
#[derive(Debug, Clone)]
pub struct Initiate {
    pub initiated: bool,
    pub by: String,
    pub initial_balance: String,
}

/// An owner set what a spender may move on its behalf.
#[derive(Debug, Clone)]
pub struct Approval {
    pub owner: String,
    pub spender: String,
    pub value_decimal: String,
    pub value_hex: String,
}

/// An amount moved from one balance to another.
#[derive(Debug, Clone)]
pub struct Transfer {
    pub from: Option<String>,
    pub to: Option<String>,
    pub value_decimal: String,
    pub value_hex: String,
}

/// A record handed to the host's event log.
#[derive(Debug, Clone)]
pub enum BridgeEvent {
    Initiate(Initiate),
    Approval(Approval),
    Transfer(Transfer),
    BridgeInComplex(BridgeInComplex),
    BridgeInSimple(BridgeInSimple),
    BridgeOutComplex(BridgeOutComplex),
    BridgeOutSimple(BridgeOutSimple),
}

/// Whether `e` records the creation of the ledger by `by` with `supply`.
pub open spec fn is_initiate_record(e: BridgeEvent, by: Seq<char>, supply: nat) -> bool {
    match e {
        BridgeEvent::Initiate(i) => i.initiated && i.by@ == by && i.initial_balance@
            == decimal_text(supply),
        _ => false,
    }
}

/// Whether `e` records an approval of `value` from `owner` to `spender`.
pub open spec fn is_approval_record(e: BridgeEvent, owner: Seq<char>, spender: Seq<char>, value: U256) -> bool {
    match e {
        BridgeEvent::Approval(a) => a.owner@ == owner && a.spender@ == spender
            && a.value_decimal@ == decimal_text(value.value()) && a.value_hex@ == hex_encoded(
            value.0@,
        ),
        _ => false,
    }
}

/// Whether `e` records a transfer of `value` from `from` to `to`.
pub open spec fn is_transfer_record(e: BridgeEvent, from: Seq<char>, to: Seq<char>, value: nat) -> bool {
    match e {
        BridgeEvent::Transfer(t) => (t.from matches Some(f) && f@ == from) && (t.to matches Some(
            g,
        ) && g@ == to) && t.value_decimal@ == decimal_text(value) && t.value_hex@ == hex_encoded(
            be_bytes(value, 32),
        ),
        _ => false,
    }
}

/// Whether `e` is the canonical record of tokens moved in.
pub open spec fn is_bridge_in_record(e: BridgeEvent, token: Seq<u8>, amount: nat, recipient: Seq<u8>, chain: nat) -> bool {
    match e {
        BridgeEvent::BridgeInComplex(b) => b.token_address.digest_view() == token
            && b.token_amount.value() == amount && b.recipient.digest_view() == recipient && (
        b.from_chain matches Some(c) && c.value() == chain),
        _ => false,
    }
}

/// Whether `e` is the text record of tokens moved in.
pub open spec fn is_bridge_in_text_record(e: BridgeEvent, token: Seq<char>, amount: Seq<char>, recipient: Seq<char>, chain: Seq<char>) -> bool {
    match e {
        BridgeEvent::BridgeInSimple(b) => b.token_address@ == token && b.token_amount@ == amount
            && b.recipient@ == recipient && (b.from_chain matches Some(c) && c@ == chain),
        _ => false,
    }
}

/// Whether `e` is the canonical record of tokens moved out.
pub open spec fn is_bridge_out_record(e: BridgeEvent, token: Seq<u8>, amount: nat, recipient: Seq<u8>, chain: nat) -> bool {
    match e {
        BridgeEvent::BridgeOutComplex(b) => b.token_address.digest_view() == token
            && b.token_amount.value() == amount && b.recipient.digest_view() == recipient && (
        b.target_chain matches Some(c) && c.value() == chain),
        _ => false,
    }
}

/// Whether `e` is the text record of tokens moved out.
pub open spec fn is_bridge_out_text_record(e: BridgeEvent, token: Seq<char>, amount: Seq<char>, recipient: Seq<char>, chain: Seq<char>) -> bool {
    match e {
        BridgeEvent::BridgeOutSimple(b) => b.token_address@ == token && b.token_amount@ == amount
            && b.recipient@ == recipient && (b.target_chain matches Some(c) && c@ == chain),
        _ => false,
    }
}

/// Balances and allowances of tokens held by addresses of many chains.
#[derive(Debug, Clone)]
pub struct Bridge {
    owner: MultiChainAddrHash,
    total_supply: U256,
    balances: AmountTable,
    allowances: AmountTable,
    events: Vec<BridgeEvent>,
}

impl Bridge {
    /// The balance of the identity with digest `d`; zero where none is stored.
    pub closed spec fn balance(&self, d: Seq<u8>) -> nat {
        self.balances.amount_of(d)
    }

    /// What the identity with digest `s` may move for the one with digest `o`.
    pub closed spec fn allowance(&self, o: Seq<u8>, s: Seq<u8>) -> nat {
        self.allowances.amount_of(o + s)
    }

    /// The total supply.
    pub closed spec fn supply(&self) -> nat {
        self.total_supply.value()
    }

    /// The digest of the owner.
    pub closed spec fn owner_digest(&self) -> Seq<u8> {
        self.owner.digest_view()
    }

    /// The records emitted and not yet taken.
    pub closed spec fn log(&self) -> Seq<BridgeEvent> {
        self.events@
    }

    /// Both tables hold each key at most once.
    pub closed spec fn wf(&self) -> bool {
        self.balances.wf() && self.allowances.wf()
    }
}

/// What a transfer of `value` from `from` to `to` owes: success, or the error.
pub open spec fn transfer_outcome(pre: Bridge, from: Seq<u8>, to: Seq<u8>, value: nat) -> Result<(), BridgeContractError> {
    if value > pre.balance(from) {
        Err(BridgeContractError::InsufficientFunds)
    } else if from != to && pre.balance(to) + value > max_value() {
        Err(BridgeContractError::Overflow)
    } else {
        Ok(())
    }
}

/// `post` holds the balances of `pre` with `value` moved from `from` to `to`.
pub open spec fn moved(pre: Bridge, post: Bridge, from: Seq<u8>, to: Seq<u8>, value: nat) -> bool {
    forall|d: Seq<u8>|
        #[trigger] post.balance(d) == if from == to {
            pre.balance(d)
        } else if d == from {
            (pre.balance(from) - value) as nat
        } else if d == to {
            pre.balance(to) + value
        } else {
            pre.balance(d)
        }
}

/// `post` has the supply, owner and allowances of `pre`.
pub open spec fn rest_kept(pre: Bridge, post: Bridge) -> bool {
    post.wf() && post.supply() == pre.supply() && post.owner_digest() == pre.owner_digest()
        && forall|o: Seq<u8>, s: Seq<u8>| #[trigger] post.allowance(o, s) == pre.allowance(o, s)
}

/// `post`'s log is `pre`'s with `n` records appended.
pub open spec fn log_extends(pre: Bridge, post: Bridge, n: nat) -> bool {
    post.log().len() == pre.log().len() + n && post.log().subrange(0, pre.log().len() as int)
        == pre.log()
}

/// `post` is `pre` after `value` moved from `from` to `to`, with `n` records
/// appended, the first of which records the transfer.
pub open spec fn transferred(pre: Bridge, post: Bridge, from: Seq<u8>, to: Seq<u8>, from_text: Seq<char>, to_text: Seq<char>, value: nat, n: nat) -> bool {
    moved(pre, post, from, to, value) && rest_kept(pre, post) && log_extends(pre, post, n) && n >= 1
        && is_transfer_record(post.log()[pre.log().len() as int], from_text, to_text, value)
}

/// `post` holds the allowances of `pre` with the one of `spender` for `owner`
/// set to `value`.
pub open spec fn approved(pre: Bridge, post: Bridge, owner: Seq<u8>, spender: Seq<u8>, value: nat) -> bool {
    forall|o: Seq<u8>, s: Seq<u8>|
        o.len() == 32 && s.len() == 32 ==> #[trigger] post.allowance(o, s) == if o == owner && s
            == spender {
            value
        } else {
            pre.allowance(o, s)
        }
}

/// The number that amount text stands for, where it is valid.
pub open spec fn text_value(s: Seq<char>) -> nat {
    match text_outcome(s) {
        Ok(n) => n,
        Err(_) => 0,
    }
}

/// The error for amount text that cannot be read.
pub open spec fn amount_error(a: Seq<char>) -> Option<BridgeContractError> {
    match text_outcome(a) {
        Ok(_) => None,
        Err(e) => Some(e),
    }
}

/// The error owed for the texts of a movement in, checked in the order given.
pub open spec fn bridge_text_error(token: Seq<char>, amount: Seq<char>, recipient: Seq<char>, chain: Seq<char>) -> Option<BridgeContractError> {
    if !valid_address(token) {
        Some(BridgeContractError::InvalidAddressFormat)
    } else if amount_error(amount) is Some {
        amount_error(amount)
    } else if !valid_address(recipient) {
        Some(BridgeContractError::InvalidAddressFormat)
    } else {
        amount_error(chain)
    }
}

/// The error owed for the texts of a movement in from the caller.
pub open spec fn bridge_in_text_error(amount: Seq<char>, recipient: Seq<char>, chain: Seq<char>) -> Option<BridgeContractError> {
    if amount_error(amount) is Some {
        amount_error(amount)
    } else if !valid_address(recipient) {
        Some(BridgeContractError::InvalidAddressFormat)
    } else {
        amount_error(chain)
    }
}

/// The error owed for the texts of a movement out to the caller.
pub open spec fn bridge_out_text_error(token: Seq<char>, amount: Seq<char>, chain: Seq<char>) -> Option<BridgeContractError> {
    if !valid_address(token) {
        Some(BridgeContractError::InvalidAddressFormat)
    } else if amount_error(amount) is Some {
        amount_error(amount)
    } else {
        amount_error(chain)
    }
}

/// `post` differs from `pre` in its log alone.
pub open spec fn same_tables(pre: Bridge, post: Bridge) -> bool {
    post.wf() == pre.wf() && post.supply() == pre.supply() && post.owner_digest()
        == pre.owner_digest() && (forall|d: Seq<u8>| #[trigger] post.balance(d) == pre.balance(d))
        && forall|o: Seq<u8>, s: Seq<u8>| #[trigger] post.allowance(o, s) == pre.allowance(o, s)
}

/// One more record keeps what a transfer established.
proof fn lemma_transferred_push(pre: Bridge, mid: Bridge, post: Bridge, from: Seq<u8>, to: Seq<u8>, from_text: Seq<char>, to_text: Seq<char>, value: nat, n: nat, e: BridgeEvent)
    requires
        transferred(pre, mid, from, to, from_text, to_text, value, n),
        post.log() == mid.log().push(e),
        same_tables(mid, post),
    ensures
        transferred(pre, post, from, to, from_text, to_text, value, n + 1),
        forall|i: int| 0 <= i < mid.log().len() ==> post.log()[i] == mid.log()[i],
        post.log()[mid.log().len() as int] == e,
{
    assert(post.log().subrange(0, pre.log().len() as int) =~= mid.log().subrange(
        0,
        pre.log().len() as int,
    ));
}


/// Two pairs of 32-byte digests are equal exactly when their concatenations are.
proof fn lemma_pair_key(o: Seq<u8>, s: Seq<u8>, co: Seq<u8>, cs: Seq<u8>)
    requires
        o.len() == 32,
        s.len() == 32,
        co.len() == 32,
        cs.len() == 32,
    ensures
        (o + s == co + cs) == (o == co && s == cs),
{
    if o + s == co + cs {
        assert(o =~= (o + s).subrange(0, 32));
        assert(co =~= (co + cs).subrange(0, 32));
        assert(s =~= (o + s).subrange(32, 64));
        assert(cs =~= (co + cs).subrange(32, 64));
    }
}

/// The key of an allowance: the owner's digest followed by the spender's.
fn pair_key(owner: &MultiChainAddrHash, spender: &MultiChainAddrHash) -> (r: Vec<u8>)
    ensures
        r@ == owner.digest_view() + spender.digest_view(),
{
    let a = owner.digest();
    let b = spender.digest();
    let mut out: Vec<u8> = Vec::new();
    let mut i: usize = 0;
    while i < 32
        invariant
            i <= 32,
            a@.len() == 32,
            out@ == a@.subrange(0, i as int),
        decreases 32 - i,
    {
        out.push(a[i]);
        i = i + 1;
        assert(out@ =~= a@.subrange(0, i as int));
    }
    let mut j: usize = 0;
    while j < 32
        invariant
            j <= 32,
            a@.len() == 32,
            b@.len() == 32,
            out@ == a@ + b@.subrange(0, j as int),
        decreases 32 - j,
    {
        out.push(b[j]);
        j = j + 1;
        assert(out@ =~= a@ + b@.subrange(0, j as int));
    }
    assert(b@.subrange(0, 32) =~= b@);
    out
}

impl Bridge {
    /// A ledger whose whole `initial_supply` is credited to `deployer`, who
    /// becomes its owner.
    pub fn new(initial_supply: U256, deployer: MultiChainAddrHash) -> (r: Self)
        ensures
            r.wf(),
            r.supply() == initial_supply.value(),
            r.owner_digest() == deployer.digest_view(),
            forall|d: Seq<u8>|
                #[trigger] r.balance(d) == if d == deployer.digest_view() {
                    initial_supply.value()
                } else {
                    0
                },
            forall|o: Seq<u8>, s: Seq<u8>| #[trigger] r.allowance(o, s) == 0,
            r.log().len() == 1,
            is_initiate_record(r.log()[0], deployer.text(), initial_supply.value()),
    {
        let mut balances = AmountTable::new();
        balances.set(deployer.digest().as_slice(), initial_supply);
        let record = Initiate {
            initiated: true,
            by: deployer.to_string(),
            initial_balance: initial_supply.to_decimal(),
        };
        let mut events: Vec<BridgeEvent> = Vec::new();
        events.push(BridgeEvent::Initiate(record));
        Bridge {
            owner: deployer,
            total_supply: initial_supply,
            balances,
            allowances: AmountTable::new(),
            events,
        }
    }

    /// The balance of an identity; zero where none is stored.
    pub fn balance_of(&self, id: &MultiChainAddrHash) -> (r: U256)
        ensures
            r.value() == self.balance(id.digest_view()),
    {
        self.balances.get(id.digest().as_slice())
    }

    /// The balance of an address given as text.
    pub fn get_balance_of(&self, owner: String) -> (r: Result<U256, BridgeContractError>)
        ensures
            valid_address(owner@) ==> (r matches Ok(v) && v.value() == self.balance(
                identity_digest(owner@),
            )),
            !valid_address(owner@) ==> r == Err::<U256, BridgeContractError>(
                BridgeContractError::InvalidAddressFormat,
            ),
    {
        match MultiChainAddrHash::from(owner) {
            Ok(id) => Ok(self.balance_of(&id)),
            Err(e) => Err(e),
        }
    }

    /// What `spender` may move for `owner`; zero where none is stored.
    pub fn allowance_of(&self, owner: &MultiChainAddrHash, spender: &MultiChainAddrHash) -> (r: U256)
        ensures
            r.value() == self.allowance(owner.digest_view(), spender.digest_view()),
    {
        let key = pair_key(owner, spender);
        self.allowances.get(key.as_slice())
    }

    /// What `spender` may move for `owner`, both given as text.
    pub fn get_allowance_of(&self, owner: String, spender: String) -> (r: Result<U256, BridgeContractError>)
        ensures
            valid_address(owner@) && valid_address(spender@) ==> (r matches Ok(v) && v.value()
                == self.allowance(identity_digest(owner@), identity_digest(spender@))),
            !(valid_address(owner@) && valid_address(spender@)) ==> r == Err::<
                U256,
                BridgeContractError,
            >(BridgeContractError::InvalidAddressFormat),
    {
        let o = match MultiChainAddrHash::from(owner) {
            Ok(id) => id,
            Err(e) => return Err(e),
        };
        let s = match MultiChainAddrHash::from(spender) {
            Ok(id) => id,
            Err(e) => return Err(e),
        };
        Ok(self.allowance_of(&o, &s))
    }

    /// The total supply.
    pub fn total_supply(&self) -> (r: U256)
        ensures
            r.value() == self.supply(),
    {
        self.total_supply
    }

    /// The records emitted and not yet taken.
    pub fn events(&self) -> (r: &Vec<BridgeEvent>)
        ensures
            r@ == self.log(),
    {
        &self.events
    }

    /// Hands over the records emitted so far and empties the log.
    pub fn take_events(&mut self) -> (r: Vec<BridgeEvent>)
        ensures
            r@ == old(self).log(),
            final(self).log() == Seq::<BridgeEvent>::empty(),
            same_tables(*old(self), *final(self)),
    {
        let mut out: Vec<BridgeEvent> = Vec::new();
        std::mem::swap(&mut out, &mut self.events);
        out
    }

    /// Moves `value` from `from` to `to`, crediting the receiver, and records
    /// it; nothing changes where it fails.
    pub fn transfer_from_to(&mut self, from: &MultiChainAddrHash, to: &MultiChainAddrHash, value: U256) -> (r: Result<(), BridgeContractError>)
        requires
            old(self).wf(),
        ensures
            r == transfer_outcome(*old(self), from.digest_view(), to.digest_view(), value.value()),
            r is Err ==> *final(self) == *old(self),
            r is Ok ==> transferred(
                *old(self),
                *final(self),
                from.digest_view(),
                to.digest_view(),
                from.text(),
                to.text(),
                value.value(),
                1,
            ),
    {
        let from_key = from.digest();
        let to_key = to.digest();
        let b = self.balances.get(from_key.as_slice());
        if U256::a_greater_than_b(&value, &b) {
            return Err(BridgeContractError::InsufficientFunds);
        }
        let debited = match U256::subtract_b_from_a(&b, &value) {
            Ok(v) => v,
            Err(e) => return Err(e),
        };
        let ghost pre = *self;
        if !from.same_identity(to) {
            let t = self.balances.get(to_key.as_slice());
            let credited = match U256::add_a_with_b(&t, &value) {
                Ok(v) => v,
                Err(e) => return Err(e),
            };
            self.balances.set(from_key.as_slice(), debited);
            self.balances.set(to_key.as_slice(), credited);
        }
        let record = Transfer {
            from: Some(from.to_string()),
            to: Some(to.to_string()),
            value_decimal: value.to_decimal(),
            value_hex: value.to_hex(),
        };
        self.events.push(BridgeEvent::Transfer(record));
        proof {
            assert(self.log().subrange(0, pre.log().len() as int) =~= pre.log());
            lemma_be_bytes(value.0@);
        }
        Ok(())
    }

    /// Sets what `spender` may move for `caller` to `value`, replacing what
    /// was there, and records it.
    pub fn approve(&mut self, caller: &MultiChainAddrHash, spender: MultiChainAddrHash, value: U256)
        requires
            old(self).wf(),
        ensures
            approved(*old(self), *final(self), caller.digest_view(), spender.digest_view(), value.value()),
            forall|d: Seq<u8>| #[trigger] final(self).balance(d) == old(self).balance(d),
            final(self).wf(),
            final(self).supply() == old(self).supply(),
            final(self).owner_digest() == old(self).owner_digest(),
            log_extends(*old(self), *final(self), 1),
            is_approval_record(final(self).log().last(), caller.text(), spender.text(), value),
    {
        let ghost pre = *self;
        let key = pair_key(caller, &spender);
        self.allowances.set(key.as_slice(), value);
        let record = Approval {
            owner: caller.to_string(),
            spender: spender.to_string(),
            value_decimal: value.to_decimal(),
            value_hex: value.to_hex(),
        };
        self.events.push(BridgeEvent::Approval(record));
        proof {
            caller.lemma_digest_len();
            spender.lemma_digest_len();
            assert forall|o: Seq<u8>, s: Seq<u8>|
                o.len() == 32 && s.len() == 32 implies #[trigger] self.allowance(o, s) == if o
                    == caller.digest_view() && s == spender.digest_view() {
                    value.value()
                } else {
                    pre.allowance(o, s)
                } by {
                lemma_pair_key(o, s, caller.digest_view(), spender.digest_view());
            }
            assert(self.log().subrange(0, pre.log().len() as int) =~= pre.log());
        }
    }

    /// Replaces the total supply, for the owner acting as the transaction's
    /// origin only; no balance changes.
    pub fn set_total_supply(&mut self, caller: &MultiChainAddrHash, caller_is_origin: bool, total_supply: U256) -> (r: Result<(), BridgeContractError>)
        ensures
            caller_is_origin && caller.digest_view() == old(self).owner_digest() ==> r is Ok
                && final(self).supply() == total_supply.value(),
            !(caller_is_origin && caller.digest_view() == old(self).owner_digest()) ==> r
                == Err::<(), BridgeContractError>(BridgeContractError::Unauthorized) && *final(self)
                == *old(self),
            final(self).wf() == old(self).wf(),
            final(self).owner_digest() == old(self).owner_digest(),
            final(self).log() == old(self).log(),
            forall|d: Seq<u8>| #[trigger] final(self).balance(d) == old(self).balance(d),
            forall|o: Seq<u8>, s: Seq<u8>| #[trigger] final(self).allowance(o, s) == old(self).allowance(o, s),
    {
        if !(caller_is_origin && caller.same_identity(&self.owner)) {
            return Err(BridgeContractError::Unauthorized);
        }
        self.total_supply = total_supply;
        Ok(())
    }
}

impl Bridge {
    /// Moves `token_amount` from `token_address` to `recipient`, tagged with
    /// the chain it came from, and records the transfer and the movement.
    pub fn bridge(&mut self, token_address: MultiChainAddrHash, token_amount: U256, recipient: MultiChainAddrHash, from_chain: U256) -> (r: Result<(), BridgeContractError>)
        requires
            old(self).wf(),
        ensures
            r == transfer_outcome(
                *old(self),
                token_address.digest_view(),
                recipient.digest_view(),
                token_amount.value(),
            ),
            r is Err ==> *final(self) == *old(self),
            r is Ok ==> transferred(
                *old(self),
                *final(self),
                token_address.digest_view(),
                recipient.digest_view(),
                token_address.text(),
                recipient.text(),
                token_amount.value(),
                2,
            ) && is_bridge_in_record(
                final(self).log()[old(self).log().len() + 1int],
                token_address.digest_view(),
                token_amount.value(),
                recipient.digest_view(),
                from_chain.value(),
            ),
    {
        let ghost pre = *self;
        let res = self.transfer_from_to(&token_address, &recipient, token_amount);
        if res.is_err() {
            return res;
        }
        let ghost mid = *self;
        let record = BridgeInComplex {
            token_address,
            token_amount,
            recipient,
            from_chain: Some(from_chain),
        };
        let ghost e = BridgeEvent::BridgeInComplex(record);
        self.push_record(BridgeEvent::BridgeInComplex(record));
        proof {
            lemma_transferred_push(
                pre,
                mid,
                *self,
                token_address.digest_view(),
                recipient.digest_view(),
                token_address.text(),
                recipient.text(),
                token_amount.value(),
                1,
                e,
            );
        }
        res
    }

    /// `bridge` with the caller as the token address.
    pub fn bridge_in(&mut self, caller: &MultiChainAddrHash, token_amount: U256, recipient: MultiChainAddrHash, from_chain: U256) -> (r: Result<(), BridgeContractError>)
        requires
            old(self).wf(),
        ensures
            r == transfer_outcome(
                *old(self),
                caller.digest_view(),
                recipient.digest_view(),
                token_amount.value(),
            ),
            r is Err ==> *final(self) == *old(self),
            r is Ok ==> transferred(
                *old(self),
                *final(self),
                caller.digest_view(),
                recipient.digest_view(),
                caller.text(),
                recipient.text(),
                token_amount.value(),
                2,
            ) && is_bridge_in_record(
                final(self).log()[old(self).log().len() + 1int],
                caller.digest_view(),
                token_amount.value(),
                recipient.digest_view(),
                from_chain.value(),
            ),
    {
        self.bridge(caller.duplicate(), token_amount, recipient, from_chain)
    }

    /// Moves `token_amount` from `token_address` to the caller, tagged with
    /// the chain it goes to, and records the transfer and the movement.
    pub fn bridge_out(&mut self, caller: &MultiChainAddrHash, token_address: MultiChainAddrHash, token_amount: U256, target_chain: U256) -> (r: Result<(), BridgeContractError>)
        requires
            old(self).wf(),
        ensures
            r == transfer_outcome(
                *old(self),
                token_address.digest_view(),
                caller.digest_view(),
                token_amount.value(),
            ),
            r is Err ==> *final(self) == *old(self),
            r is Ok ==> transferred(
                *old(self),
                *final(self),
                token_address.digest_view(),
                caller.digest_view(),
                token_address.text(),
                caller.text(),
                token_amount.value(),
                2,
            ) && is_bridge_out_record(
                final(self).log()[old(self).log().len() + 1int],
                token_address.digest_view(),
                token_amount.value(),
                caller.digest_view(),
                target_chain.value(),
            ),
    {
        let ghost pre = *self;
        let res = self.transfer_from_to(&token_address, caller, token_amount);
        if res.is_err() {
            return res;
        }
        let ghost mid = *self;
        let record = BridgeOutComplex {
            token_address,
            token_amount,
            recipient: caller.duplicate(),
            target_chain: Some(target_chain),
        };
        let ghost e = BridgeEvent::BridgeOutComplex(record);
        self.push_record(BridgeEvent::BridgeOutComplex(record));
        proof {
            lemma_transferred_push(
                pre,
                mid,
                *self,
                token_address.digest_view(),
                caller.digest_view(),
                token_address.text(),
                caller.text(),
                token_amount.value(),
                1,
                e,
            );
        }
        res
    }
}

impl Bridge {
    /// Appends one record to the log.
    fn push_record(&mut self, e: BridgeEvent)
        ensures
            final(self).log() == old(self).log().push(e),
            same_tables(*old(self), *final(self)),
    {
        self.events.push(e);
    }

    /// `bridge` on texts: the addresses are read as identities, the amount
    /// and chain as amount text; with `emit_simple` the texts are recorded too.
    pub fn bridge_string(&mut self, token_address_str: String, token_amount_str: String, recipient_str: String, from_chain_str: String, emit_simple: bool) -> (r: Result<(), BridgeContractError>)
        requires
            old(self).wf(),
        ensures
            bridge_text_error(token_address_str@, token_amount_str@, recipient_str@, from_chain_str@)
                matches Some(e) ==> r == Err::<(), BridgeContractError>(e),
            bridge_text_error(token_address_str@, token_amount_str@, recipient_str@, from_chain_str@)
                is None ==> r == transfer_outcome(
                *old(self),
                identity_digest(token_address_str@),
                identity_digest(recipient_str@),
                text_value(token_amount_str@),
            ),
            r is Err ==> *final(self) == *old(self),
            r is Ok ==> transferred(
                *old(self),
                *final(self),
                identity_digest(token_address_str@),
                identity_digest(recipient_str@),
                token_address_str@,
                recipient_str@,
                text_value(token_amount_str@),
                if emit_simple {
                    3
                } else {
                    2
                },
            ) && is_bridge_in_record(
                final(self).log()[old(self).log().len() + 1int],
                identity_digest(token_address_str@),
                text_value(token_amount_str@),
                identity_digest(recipient_str@),
                text_value(from_chain_str@),
            ) && (emit_simple ==> is_bridge_in_text_record(
                final(self).log()[old(self).log().len() + 2int],
                token_address_str@,
                token_amount_str@,
                recipient_str@,
                from_chain_str@,
            )),
    {
        let ghost pre = *self;
        let token_address = match MultiChainAddrHash::from(token_address_str.clone()) {
            Ok(a) => a,
            Err(e) => return Err(e),
        };
        let token_amount = match U256::from_text(token_amount_str.clone()) {
            Ok(v) => v,
            Err(e) => return Err(e),
        };
        let recipient = match MultiChainAddrHash::from(recipient_str.clone()) {
            Ok(a) => a,
            Err(e) => return Err(e),
        };
        let from_chain = match U256::from_text(from_chain_str.clone()) {
            Ok(v) => v,
            Err(e) => return Err(e),
        };
        let res = self.bridge(token_address, token_amount, recipient, from_chain);
        if res.is_ok() && emit_simple {
            let ghost mid = *self;
            let record = BridgeInSimple {
                token_address: token_address_str,
                token_amount: token_amount_str,
                recipient: recipient_str,
                from_chain: Some(from_chain_str),
            };
            let ghost e = BridgeEvent::BridgeInSimple(record);
            self.push_record(BridgeEvent::BridgeInSimple(record));
            proof {
                lemma_transferred_push(
                    pre,
                    mid,
                    *self,
                    identity_digest(token_address_str@),
                    identity_digest(recipient_str@),
                    token_address_str@,
                    recipient_str@,
                    text_value(token_amount_str@),
                    2,
                    e,
                );
            }
        }
        res
    }

    /// `bridge_in` on texts; with `emit_simple` the texts are recorded too,
    /// with the caller's address as the token address.
    pub fn bridge_in_string(&mut self, caller: &MultiChainAddrHash, token_amount_str: String, recipient_str: String, from_chain_str: String, emit_simple: bool) -> (r: Result<(), BridgeContractError>)
        requires
            old(self).wf(),
        ensures
            bridge_in_text_error(token_amount_str@, recipient_str@, from_chain_str@) matches Some(e)
                ==> r == Err::<(), BridgeContractError>(e),
            bridge_in_text_error(token_amount_str@, recipient_str@, from_chain_str@) is None ==> r
                == transfer_outcome(
                *old(self),
                caller.digest_view(),
                identity_digest(recipient_str@),
                text_value(token_amount_str@),
            ),
            r is Err ==> *final(self) == *old(self),
            r is Ok ==> transferred(
                *old(self),
                *final(self),
                caller.digest_view(),
                identity_digest(recipient_str@),
                caller.text(),
                recipient_str@,
                text_value(token_amount_str@),
                if emit_simple {
                    3
                } else {
                    2
                },
            ) && is_bridge_in_record(
                final(self).log()[old(self).log().len() + 1int],
                caller.digest_view(),
                text_value(token_amount_str@),
                identity_digest(recipient_str@),
                text_value(from_chain_str@),
            ) && (emit_simple ==> is_bridge_in_text_record(
                final(self).log()[old(self).log().len() + 2int],
                caller.text(),
                token_amount_str@,
                recipient_str@,
                from_chain_str@,
            )),
    {
        let ghost pre = *self;
        let token_amount = match U256::from_text(token_amount_str.clone()) {
            Ok(v) => v,
            Err(e) => return Err(e),
        };
        let recipient = match MultiChainAddrHash::from(recipient_str.clone()) {
            Ok(a) => a,
            Err(e) => return Err(e),
        };
        let from_chain = match U256::from_text(from_chain_str.clone()) {
            Ok(v) => v,
            Err(e) => return Err(e),
        };
        let res = self.bridge_in(caller, token_amount, recipient, from_chain);
        if res.is_ok() && emit_simple {
            let ghost mid = *self;
            let record = BridgeInSimple {
                token_address: caller.to_string(),
                token_amount: token_amount_str,
                recipient: recipient_str,
                from_chain: Some(from_chain_str),
            };
            let ghost e = BridgeEvent::BridgeInSimple(record);
            self.push_record(BridgeEvent::BridgeInSimple(record));
            proof {
                lemma_transferred_push(
                    pre,
                    mid,
                    *self,
                    caller.digest_view(),
                    identity_digest(recipient_str@),
                    caller.text(),
                    recipient_str@,
                    text_value(token_amount_str@),
                    2,
                    e,
                );
            }
        }
        res
    }

    /// `bridge_out` on texts; with `emit_simple` the texts are recorded too,
    /// with the caller's address as the recipient.
    pub fn bridge_out_string(&mut self, caller: &MultiChainAddrHash, token_address_str: String, token_amount_str: String, target_chain_str: String, emit_simple: bool) -> (r: Result<(), BridgeContractError>)
        requires
            old(self).wf(),
        ensures
            bridge_out_text_error(token_address_str@, token_amount_str@, target_chain_str@) matches Some(e)
                ==> r == Err::<(), BridgeContractError>(e),
            bridge_out_text_error(token_address_str@, token_amount_str@, target_chain_str@) is None ==> r
                == transfer_outcome(
                *old(self),
                identity_digest(token_address_str@),
                caller.digest_view(),
                text_value(token_amount_str@),
            ),
            r is Err ==> *final(self) == *old(self),
            r is Ok ==> transferred(
                *old(self),
                *final(self),
                identity_digest(token_address_str@),
                caller.digest_view(),
                token_address_str@,
                caller.text(),
                text_value(token_amount_str@),
                if emit_simple {
                    3
                } else {
                    2
                },
            ) && is_bridge_out_record(
                final(self).log()[old(self).log().len() + 1int],
                identity_digest(token_address_str@),
                text_value(token_amount_str@),
                caller.digest_view(),
                text_value(target_chain_str@),
            ) && (emit_simple ==> is_bridge_out_text_record(
                final(self).log()[old(self).log().len() + 2int],
                token_address_str@,
                token_amount_str@,
                caller.text(),
                target_chain_str@,
            )),
    {
        let ghost pre = *self;
        let token_address = match MultiChainAddrHash::from(token_address_str.clone()) {
            Ok(a) => a,
            Err(e) => return Err(e),
        };
        let token_amount = match U256::from_text(token_amount_str.clone()) {
            Ok(v) => v,
            Err(e) => return Err(e),
        };
        let target_chain = match U256::from_text(target_chain_str.clone()) {
            Ok(v) => v,
            Err(e) => return Err(e),
        };
        let res = self.bridge_out(caller, token_address, token_amount, target_chain);
        if res.is_ok() && emit_simple {
            let ghost mid = *self;
            let record = BridgeOutSimple {
                token_address: token_address_str,
                token_amount: token_amount_str,
                recipient: caller.to_string(),
                target_chain: Some(target_chain_str),
            };
            let ghost e = BridgeEvent::BridgeOutSimple(record);
            self.push_record(BridgeEvent::BridgeOutSimple(record));
            proof {
                lemma_transferred_push(
                    pre,
                    mid,
                    *self,
                    identity_digest(token_address_str@),
                    caller.digest_view(),
                    token_address_str@,
                    caller.text(),
                    text_value(token_amount_str@),
                    2,
                    e,
                );
            }
        }
        res
    }
}


/// A transfer between two identities, within the sender's balance and not
/// overflowing the receiver, succeeds; it debits the sender, credits the
/// receiver by the same amount, and keeps the supply.
pub proof fn lemma_transfer_moves_amount(pre: Bridge, post: Bridge, from: Seq<u8>, to: Seq<u8>, from_text: Seq<char>, to_text: Seq<char>, amount: nat)
    requires
        amount <= pre.balance(from),
        from != to,
        pre.balance(to) + amount <= max_value(),
        transferred(pre, post, from, to, from_text, to_text, amount, 1),
    ensures
        transfer_outcome(pre, from, to, amount) == Ok::<(), BridgeContractError>(()),
        post.balance(from) == pre.balance(from) - amount,
        post.balance(to) == pre.balance(to) + amount,
        post.balance(from) + post.balance(to) == pre.balance(from) + pre.balance(to),
        post.supply() == pre.supply(),
{
    assert(post.balance(from) == (pre.balance(from) - amount) as nat);
    assert(post.balance(to) == pre.balance(to) + amount);
}

/// A transfer larger than the sender's balance fails with `InsufficientFunds`.
pub proof fn lemma_transfer_insufficient(pre: Bridge, from: Seq<u8>, to: Seq<u8>, amount: nat)
    requires
        amount > pre.balance(from),
    ensures
        transfer_outcome(pre, from, to, amount) == Err::<(), BridgeContractError>(
            BridgeContractError::InsufficientFunds,
        ),
{
}

/// After two approvals for the same pair, the allowance is the amount of the
/// second: approving replaces, it does not add.
pub proof fn lemma_last_approval_wins(s0: Bridge, s1: Bridge, s2: Bridge, owner: Seq<u8>, spender: Seq<u8>, first: nat, second: nat)
    requires
        owner.len() == 32,
        spender.len() == 32,
        approved(s0, s1, owner, spender, first),
        approved(s1, s2, owner, spender, second),
    ensures
        s1.allowance(owner, spender) == first,
        s2.allowance(owner, spender) == second,
{
    assert(s1.allowance(owner, spender) == first);
    assert(s2.allowance(owner, spender) == second);
}

} // verus!
