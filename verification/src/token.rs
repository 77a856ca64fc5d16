//! A sample token contract speaking this ABI: its persisted state, its pure
//! entry-point handlers, and the boundary-export bodies that decode inputs,
//! invoke a handler exactly once, and re-encode the state it returns.

use vstd::prelude::*;

use crate::DecodeError;
use crate::address::Address;
use crate::context::ContractContext;
use crate::address::AddressView;
use crate::address::address_lt;
use crate::address::address_wf;
use crate::address::spec_dec_address;
use crate::address::spec_enc_address;
use crate::intbytes::spec_u32_from_be_bytes;
use crate::intbytes::spec_u32_to_be_bytes;
use crate::intbytes::spec_u64_from_be_bytes;
use crate::intbytes::spec_u64_to_be_bytes;
use crate::ordered::OrderedKey;
use crate::ordered::OrderedMap;
use crate::ordered::spec_dec_pairs;
use crate::ordered::spec_enc_pairs;
use crate::ordered::spec_entries_sorted;
use crate::ordered::spec_map_get;
use crate::ordered::spec_map_put;
use crate::serialization::Cursor;
use crate::serialization::ReadInt;
use crate::serialization::ReadWrite;
use crate::serialization::WriteInt;
use crate::serialization::seq_deep_view;
use crate::serialization::write_all_bytes;
use vstd::wrapping::u64_specs;

verus! {

/// The number of bytes in a token symbol.
pub const SYMBOL_WIDTH: usize = 16;

/// The persisted state of the token contract.
#[derive(Debug)]
pub struct TokenContractState {
    pub symbol: Vec<u8>,
    pub total_supply: u64,
    pub balances: OrderedMap<Address, u64>,
}

/// The abstract value of a [`TokenContractState`].
pub struct TokenContractStateView {
    pub symbol: Seq<u8>,
    pub total_supply: u64,
    pub balances: Seq<(AddressView, u64)>,
}

impl DeepView for TokenContractState {
    type V = TokenContractStateView;

    open spec fn deep_view(&self) -> TokenContractStateView {
        TokenContractStateView {
            symbol: self.symbol@,
            total_supply: self.total_supply,
            balances: self.balances.deep_view(),
        }
    }
}

/// The balance table's keys are strictly increasing.
pub open spec fn spec_balances_sorted(m: Seq<(AddressView, u64)>) -> bool {
    forall|i: int, j: int|
        #![trigger m[i], m[j]]
        0 <= i < j < m.len() ==> address_lt(m[i].0, m[j].0)
}

/// The balance stored under an address, if any.
pub open spec fn spec_balances_get(m: Seq<(AddressView, u64)>, k: AddressView) -> Option<u64>
    decreases m.len(),
{
    if m.len() == 0 {
        Option::None
    } else if m[0].0 == k {
        Option::Some(m[0].1)
    } else {
        spec_balances_get(m.drop_first(), k)
    }
}

/// The balance table after binding an address to a balance.
pub open spec fn spec_balances_put(m: Seq<(AddressView, u64)>, k: AddressView, v: u64) -> Seq<
    (AddressView, u64),
>
    decreases m.len(),
{
    if m.len() == 0 {
        seq![(k, v)]
    } else if address_lt(k, m[0].0) {
        seq![(k, v)] + m
    } else if address_lt(m[0].0, k) {
        seq![m[0]] + spec_balances_put(m.drop_first(), k, v)
    } else {
        seq![(k, v)] + m.drop_first()
    }
}

/// Concatenated encodings of the balance table: each address, then its
/// balance big-endian.
pub open spec fn spec_enc_balances(m: Seq<(AddressView, u64)>) -> Seq<u8>
    decreases m.len(),
{
    if m.len() == 0 {
        Seq::empty()
    } else {
        spec_enc_address(m[0].0) + spec_u64_to_be_bytes(m[0].1) + spec_enc_balances(m.drop_first())
    }
}

/// Decoding of exactly `count` address/balance pairs into an accumulated
/// table; a repeated address is a fatal duplicate.
pub open spec fn spec_dec_balances(s: Seq<u8>, count: int, acc: Seq<(AddressView, u64)>) -> Result<
    (Seq<(AddressView, u64)>, int),
    DecodeError,
>
    decreases count,
{
    if count <= 0 {
        Ok((acc, 0))
    } else {
        match spec_dec_address(s) {
            Err(e) => Err(e),
            Ok((kk, nk)) => {
                if s.skip(nk).len() < 8 {
                    Err(DecodeError::Truncated)
                } else {
                    let vv = spec_u64_from_be_bytes(s.skip(nk).take(8));
                    if spec_balances_get(acc, kk) is Some {
                        Err(DecodeError::DuplicateMapKey)
                    } else {
                        match spec_dec_balances(
                            s.skip(nk + 8),
                            count - 1,
                            spec_balances_put(acc, kk, vv),
                        ) {
                            Err(e) => Err(e),
                            Ok((m, n)) => Ok((m, nk + 8 + n)),
                        }
                    }
                }
            },
        }
    }
}

/// The balance table's own order is the generic map order.
pub proof fn lemma_balances_sorted_equiv(m: Seq<(AddressView, u64)>)
    ensures
        spec_entries_sorted::<Address, u64>(m) == spec_balances_sorted(m),
{
    if spec_entries_sorted::<Address, u64>(m) {
        assert forall|i: int, j: int|
            #![trigger m[i], m[j]]
            0 <= i < j < m.len() implies address_lt(m[i].0, m[j].0) by {
            assert(Address::key_lt(m[i].0, m[j].0));
        }
    }
    if spec_balances_sorted(m) {
        assert forall|i: int, j: int|
            #![trigger m[i], m[j]]
            0 <= i < j < m.len() implies Address::key_lt(m[i].0, m[j].0) by {
            assert(address_lt(m[i].0, m[j].0));
        }
    }
}

/// Looking a balance up is the generic map lookup.
pub proof fn lemma_balances_get_equiv(m: Seq<(AddressView, u64)>, k: AddressView)
    ensures
        spec_map_get::<Address, u64>(m, k) == spec_balances_get(m, k),
    decreases m.len(),
{
    if m.len() > 0 && m[0].0 != k {
        lemma_balances_get_equiv(m.drop_first(), k);
    }
}

/// Binding a balance is the generic map binding.
pub proof fn lemma_balances_put_equiv(m: Seq<(AddressView, u64)>, k: AddressView, v: u64)
    ensures
        spec_map_put::<Address, u64>(m, k, v) == spec_balances_put(m, k, v),
    decreases m.len(),
{
    if m.len() > 0 && !address_lt(k, m[0].0) && address_lt(m[0].0, k) {
        lemma_balances_put_equiv(m.drop_first(), k, v);
    }
}

/// Encoding the balance table is the generic pair encoding.
pub proof fn lemma_balances_enc_equiv(m: Seq<(AddressView, u64)>)
    ensures
        spec_enc_pairs::<Address, u64>(m) == spec_enc_balances(m),
    decreases m.len(),
{
    if m.len() > 0 {
        lemma_balances_enc_equiv(m.drop_first());
    }
}

/// Decoding the balance table is the generic pair decoding.
pub proof fn lemma_balances_dec_equiv(s: Seq<u8>, count: int, acc: Seq<(AddressView, u64)>)
    ensures
        spec_dec_pairs::<Address, u64>(s, count, acc) == spec_dec_balances(s, count, acc),
    decreases count,
{
    if count > 0 {
        match spec_dec_address(s) {
            Err(_) => {},
            Ok((kk, nk)) => {
                lemma_balances_get_equiv(acc, kk);
                if s.skip(nk).len() >= 8 {
                    let vv = spec_u64_from_be_bytes(s.skip(nk).take(8));
                    if spec_balances_get(acc, kk) is None {
                        lemma_balances_put_equiv(acc, kk, vv);
                        lemma_balances_dec_equiv(
                            s.skip(nk + 8),
                            count - 1,
                            spec_balances_put(acc, kk, vv),
                        );
                        assert(s.skip(nk).skip(8) =~= s.skip(nk + 8));
                    }
                }
            },
        }
    }
}

/// Decoding never consumes more than the stream holds.
pub proof fn lemma_dec_balances_bounds(s: Seq<u8>, count: int, acc: Seq<(AddressView, u64)>)
    ensures
        spec_dec_balances(s, count, acc) matches Ok((m, n)) ==> 0 <= n <= s.len(),
    decreases count,
{
    if count > 0 {
        match spec_dec_address(s) {
            Err(_) => {},
            Ok((kk, nk)) => {
                if s.skip(nk).len() >= 8 {
                    let vv = spec_u64_from_be_bytes(s.skip(nk).take(8));
                    if spec_balances_get(acc, kk) is None {
                        lemma_dec_balances_bounds(
                            s.skip(nk + 8),
                            count - 1,
                            spec_balances_put(acc, kk, vv),
                        );
                    }
                }
            },
        }
    }
}

/// A well-formed token state: a fixed-width symbol and a sorted balance
/// table of well-formed addresses whose size fits its count field.
pub open spec fn token_state_wf(s: TokenContractState) -> bool {
    &&& s.symbol@.len() == SYMBOL_WIDTH
    &&& s.balances.entries@.len() <= u32::MAX
    &&& spec_balances_sorted(s.balances.deep_view())
    &&& forall|i: int|
        #![trigger s.balances.entries@[i]]
        0 <= i < s.balances.entries@.len() ==> address_wf(s.balances.entries@[i].0)
}

/// The wire image of a token state: the raw symbol bytes, the total supply
/// big-endian, then the balance table as an ordered map.
pub open spec fn spec_enc_token_state(m: TokenContractStateView) -> Seq<u8> {
    m.symbol + spec_u64_to_be_bytes(m.total_supply) + spec_u32_to_be_bytes(
        m.balances.len() as u32,
    ) + spec_enc_balances(m.balances)
}

/// What decoding a token state reads off the front of a stream.
pub open spec fn spec_dec_token_state(s: Seq<u8>) -> Result<
    (TokenContractStateView, int),
    DecodeError,
> {
    if s.len() < SYMBOL_WIDTH {
        Err(DecodeError::Truncated)
    } else {
        let symbol = s.take(SYMBOL_WIDTH as int);
        let s1 = s.skip(SYMBOL_WIDTH as int);
        if s1.len() < 8 {
            Err(DecodeError::Truncated)
        } else {
            let total_supply = spec_u64_from_be_bytes(s1.take(8));
            let s2 = s1.skip(8);
            if s2.len() < 4 {
                Err(DecodeError::Truncated)
            } else {
                let c = spec_u32_from_be_bytes(s2.take(4));
                match spec_dec_balances(s2.skip(4), c as int, Seq::empty()) {
                    Err(e) => Err(e),
                    Ok((balances, n)) => Ok(
                        (
                            TokenContractStateView { symbol, total_supply, balances },
                            SYMBOL_WIDTH + 8 + 4 + n,
                        ),
                    ),
                }
            }
        }
    }
}

impl ReadWrite for TokenContractState {
    open spec fn wf(&self) -> bool {
        token_state_wf(*self)
    }

    open spec fn spec_enc(m: TokenContractStateView) -> Seq<u8> {
        spec_enc_token_state(m)
    }

    open spec fn spec_dec(s: Seq<u8>) -> Result<(TokenContractStateView, int), DecodeError> {
        spec_dec_token_state(s)
    }

    proof fn lemma_dec_bounds(s: Seq<u8>) {
        if s.len() >= SYMBOL_WIDTH {
            let s1 = s.skip(SYMBOL_WIDTH as int);
            if s1.len() >= 8 {
                let s2 = s1.skip(8);
                if s2.len() >= 4 {
                    let c = spec_u32_from_be_bytes(s2.take(4));
                    lemma_dec_balances_bounds(s2.skip(4), c as int, Seq::empty());
                }
            }
        }
    }

    proof fn lemma_round_trip(v: &TokenContractState, tail: Seq<u8>) {
        let m = v.deep_view();
        let e1 = m.symbol;
        let e2 = spec_u64_to_be_bytes(m.total_supply);
        let e3 = spec_u32_to_be_bytes(m.balances.len() as u32);
        let e4 = spec_enc_balances(m.balances);
        let whole = Self::spec_enc(m) + tail;
        assert(whole =~= e1 + (e2 + (e3 + (e4 + tail))));
        assert(whole.take(SYMBOL_WIDTH as int) =~= e1);
        assert(whole.skip(SYMBOL_WIDTH as int) =~= e2 + (e3 + (e4 + tail)));
        crate::intbytes::lemma_u64_be_round_trip(m.total_supply);
        assert((e2 + (e3 + (e4 + tail))).take(8) =~= e2);
        assert((e2 + (e3 + (e4 + tail))).skip(8) =~= e3 + (e4 + tail));
        crate::intbytes::lemma_u32_be_round_trip(m.balances.len() as u32);
        assert((e3 + (e4 + tail)).take(4) =~= e3);
        assert((e3 + (e4 + tail)).skip(4) =~= e4 + tail);
        assert(m.balances =~= seq_deep_view(v.balances.entries@));
        assert(Seq::<(AddressView, u64)>::empty() + m.balances =~= m.balances);
        lemma_balances_sorted_equiv(m.balances);
        crate::ordered::lemma_pairs_round_trip::<Address, u64>(
            v.balances.entries@,
            Seq::empty(),
            tail,
        );
        lemma_balances_enc_equiv(m.balances);
        lemma_balances_dec_equiv(e4 + tail, m.balances.len() as int, Seq::empty());
    }

    fn read_from(reader: &mut Cursor) -> (r: Result<TokenContractState, DecodeError>) {
        let ghost s0 = reader.remaining();
        if reader.remaining_len() < SYMBOL_WIDTH {
            return Err(DecodeError::Truncated);
        }
        let symbol = reader.read_bytes(SYMBOL_WIDTH);
        proof {
            assert(symbol@ =~= s0.take(SYMBOL_WIDTH as int));
            assert(reader.remaining() =~= s0.skip(SYMBOL_WIDTH as int));
        }
        let ghost s1 = reader.remaining();
        let ghost off1 = reader.offset();
        if reader.remaining_len() < 8 {
            return Err(DecodeError::Truncated);
        }
        let total_supply = reader.read_u64_be();
        proof {
            assert(reader.stream().subrange(off1, off1 + 8) =~= s1.take(8));
            assert(reader.remaining() =~= s1.skip(8));
        }
        let ghost s2 = reader.remaining();
        let balances = match OrderedMap::<Address, u64>::read_from(reader) {
            Err(e) => {
                proof {
                    if s2.len() >= 4 {
                        lemma_balances_dec_equiv(
                            s2.skip(4),
                            spec_u32_from_be_bytes(s2.take(4)) as int,
                            Seq::empty(),
                        );
                    }
                }
                return Err(e);
            },
            Ok(b) => b,
        };
        proof {
            lemma_balances_dec_equiv(
                s2.skip(4),
                spec_u32_from_be_bytes(s2.take(4)) as int,
                Seq::empty(),
            );
            lemma_balances_sorted_equiv(balances.deep_view());
        }
        Ok(TokenContractState { symbol, total_supply, balances })
    }

    fn write_to(&self, writer: &mut Vec<u8>) {
        write_all_bytes(writer, &self.symbol);
        writer.write_u64_be(self.total_supply);
        proof {
            lemma_balances_sorted_equiv(self.balances.deep_view());
        }
        self.balances.write_to(writer);
        proof {
            let m = self.deep_view();
            lemma_balances_enc_equiv(m.balances);
            assert(old(writer)@ + m.symbol + spec_u64_to_be_bytes(m.total_supply) + (
            spec_u32_to_be_bytes(m.balances.len() as u32) + spec_enc_balances(m.balances)) =~= old(
                writer,
            )@ + <TokenContractState as ReadWrite>::spec_enc(m));
        }
    }
}

/// The balance an address holds: zero when it has no entry.
pub open spec fn spec_balance_of(m: Seq<(AddressView, u64)>, a: AddressView) -> u64 {
    match spec_balances_get(m, a) {
        Option::Some(b) => b,
        Option::None => 0,
    }
}

/// What the initializer returns: the previous state when one exists, else a
/// blank state with a zeroed symbol, no supply and no balances.
pub open spec fn spec_initialize(base: Option<TokenContractStateView>) -> TokenContractStateView {
    match base {
        Option::Some(s) => s,
        Option::None => TokenContractStateView {
            symbol: Seq::new(SYMBOL_WIDTH as nat, |i: int| 0u8),
            total_supply: 0,
            balances: Seq::empty(),
        },
    }
}

/// What minting returns: only the owner may mint for itself; the sender's
/// balance grows by the amount and, as the handler is written, the total
/// supply is advanced once by the balance update and once more by the
/// handler, all with wrapping arithmetic.
pub open spec fn spec_mint(
    ctx: crate::context::ContractContextView,
    st: TokenContractStateView,
    amount: u64,
) -> TokenContractStateView {
    if ctx.owner != ctx.sender {
        st
    } else {
        let nb = u64_specs::wrapping_add(spec_balance_of(st.balances, ctx.sender), amount);
        TokenContractStateView {
            symbol: st.symbol,
            total_supply: u64_specs::wrapping_add(
                u64_specs::wrapping_add(st.total_supply, amount),
                amount,
            ),
            balances: spec_balances_put(st.balances, ctx.sender, nb),
        }
    }
}

/// What transferring returns: only the owner may move its own funds, an
/// insufficient balance leaves the state untouched, and otherwise the amount
/// moves from the sender's balance to the destination's while the total
/// supply stays what it was.
pub open spec fn spec_transfer(
    ctx: crate::context::ContractContextView,
    st: TokenContractStateView,
    dest: AddressView,
    amount: u64,
) -> TokenContractStateView {
    if ctx.owner != ctx.sender {
        st
    } else if spec_balance_of(st.balances, ctx.sender) < amount {
        st
    } else {
        let sb = u64_specs::wrapping_sub(spec_balance_of(st.balances, ctx.sender), amount);
        let b1 = spec_balances_put(st.balances, ctx.sender, sb);
        let db = u64_specs::wrapping_add(spec_balance_of(b1, dest), amount);
        let b2 = spec_balances_put(b1, dest, db);
        TokenContractStateView {
            symbol: st.symbol,
            total_supply: st.total_supply,
            balances: b2,
        }
    }
}

/// Adding the wrapped negation of an amount subtracts it, wrapping.
pub proof fn lemma_wrap_add_of_neg(b: u64, amount: u64)
    ensures
        u64_specs::wrapping_add(b, u64_specs::wrapping_sub(0u64, amount))
            == u64_specs::wrapping_sub(b, amount),
{
}

/// Wrapping subtraction then wrapping addition of the same amount cancels.
pub proof fn lemma_wrap_sub_add_cancel(t: u64, amount: u64)
    ensures
        u64_specs::wrapping_add(u64_specs::wrapping_sub(t, amount), amount) == t,
{
}

impl TokenContractState {
    /// Shift one address's balance and the total supply by a signed delta,
    /// with wrapping arithmetic throughout.
    pub fn update_balance(&mut self, address: Address, delta: i64)
        requires
            token_state_wf(*old(self)),
            address_wf(address),
            old(self).balances.deep_view().len() < u32::MAX,
        ensures
            token_state_wf(*final(self)),
            final(self).deep_view().symbol == old(self).deep_view().symbol,
            final(self).deep_view().total_supply == u64_specs::wrapping_add(
                old(self).total_supply,
                crate::intbytes::spec_i64_to_bits(delta),
            ),
            final(self).deep_view().balances == spec_balances_put(
                old(self).deep_view().balances,
                address.deep_view(),
                u64_specs::wrapping_add(
                    spec_balance_of(old(self).deep_view().balances, address.deep_view()),
                    crate::intbytes::spec_i64_to_bits(delta),
                ),
            ),
            final(self).balances.deep_view().len() <= old(self).balances.deep_view().len() + 1,
    {
        proof {
            lemma_balances_sorted_equiv(self.balances.deep_view());
            lemma_balances_get_equiv(self.balances.deep_view(), address.deep_view());
        }
        let ghost b0 = self.balances.deep_view();
        let wallet_balance: u64 = match self.balances.get(&address) {
            Some(balance) => *balance,
            None => 0,
        };
        let delta_bits = crate::intbytes::i64_to_bits(delta);
        let new_balance = wallet_balance.wrapping_add(delta_bits);
        let _previous = self.balances.insert(address, new_balance);
        proof {
            lemma_balances_put_equiv(b0, address.deep_view(), new_balance);
            crate::ordered::lemma_put_sorted::<Address, u64>(
                b0,
                address.deep_view(),
                new_balance,
            );
            lemma_balances_sorted_equiv(self.balances.deep_view());
        }
        self.total_supply = self.total_supply.wrapping_add(delta_bits);
    }

    /// The balance an address holds, zero when it has no entry.
    pub fn get_balance(&self, address: Address) -> (r: u64)
        requires
            token_state_wf(*self),
        ensures
            r == spec_balance_of(self.deep_view().balances, address.deep_view()),
    {
        proof {
            lemma_balances_sorted_equiv(self.balances.deep_view());
            lemma_balances_get_equiv(self.balances.deep_view(), address.deep_view());
        }
        match self.balances.get(&address) {
            Some(balance) => *balance,
            None => 0,
        }
    }
}

/// The initializer entry point: keep the handed-over state if there is one,
/// else start blank.
pub fn initialize(ctx: ContractContext, base_state: Option<TokenContractState>) -> (r:
    TokenContractState)
    requires
        match base_state {
            Option::Some(s) => token_state_wf(s),
            Option::None => true,
        },
    ensures
        r.deep_view() == spec_initialize(base_state.deep_view()),
        token_state_wf(r),
{
    match base_state {
        Option::None => {
            let symbol: Vec<u8> = vec![0u8; SYMBOL_WIDTH];
            let r = TokenContractState {
                symbol,
                total_supply: 0,
                balances: OrderedMap::new(),
            };
            proof {
                assert(r.deep_view().symbol =~= Seq::new(SYMBOL_WIDTH as nat, |i: int| 0u8));
                assert(r.deep_view().balances =~= Seq::<(AddressView, u64)>::empty());
                assert(r.deep_view() == spec_initialize(
                    base_state.deep_view(),
                )) by {
                    assert(base_state.deep_view() is None);
                }
            }
            r
        },
        Option::Some(s) => s,
    }
}

/// The mint action: the owner calling for itself grows its own balance by
/// the amount; anyone else gets the state back unchanged.
pub fn mint(context: ContractContext, state: TokenContractState, amount: u64) -> (r:
    TokenContractState)
    requires
        token_state_wf(state),
        address_wf(context.owner),
        address_wf(context.sender),
        state.balances.deep_view().len() < u32::MAX,
    ensures
        r.deep_view() == spec_mint(context.deep_view(), state.deep_view(), amount),
        token_state_wf(r),
{
    if !(context.owner == context.sender) {
        return state;
    }
    let mut st = state;
    let delta = crate::intbytes::i64_from_bits(amount);
    proof {
        crate::intbytes::lemma_i64_bits_identity(amount);
    }
    st.update_balance(context.sender, delta);
    let new_total = st.total_supply.wrapping_add(amount);
    let r = TokenContractState {
        symbol: st.symbol,
        total_supply: new_total,
        balances: st.balances,
    };
    r
}

/// The transfer action: the owner calling for itself moves the amount from
/// its balance to the destination, provided the balance covers it; any
/// other call, or an insufficient balance, returns the state unchanged.
pub fn transfer(
    context: ContractContext,
    state: TokenContractState,
    dest: Address,
    amount: u64,
) -> (r: TokenContractState)
    requires
        token_state_wf(state),
        address_wf(context.owner),
        address_wf(context.sender),
        address_wf(dest),
        state.balances.deep_view().len() + 2 <= u32::MAX,
    ensures
        r.deep_view() == spec_transfer(
            context.deep_view(),
            state.deep_view(),
            dest.deep_view(),
            amount,
        ),
        token_state_wf(r),
{
    if !(context.owner == context.sender) {
        return state;
    }
    let sender = context.sender;
    let mut st = state;
    let sender_balance = st.get_balance(sender.duplicate());
    if sender_balance < amount {
        return st;
    }
    let delta_bits = 0u64.wrapping_sub(amount);
    let neg_delta = crate::intbytes::i64_from_bits(delta_bits);
    proof {
        crate::intbytes::lemma_i64_bits_identity(delta_bits);
        lemma_wrap_add_of_neg(sender_balance, amount);
        lemma_wrap_add_of_neg(st.total_supply, amount);
    }
    st.update_balance(sender, neg_delta);
    let pos_delta = crate::intbytes::i64_from_bits(amount);
    proof {
        crate::intbytes::lemma_i64_bits_identity(amount);
        lemma_wrap_sub_add_cancel(state.total_supply, amount);
    }
    st.update_balance(dest, pos_delta);
    let r = TokenContractState {
        symbol: st.symbol,
        total_supply: st.total_supply,
        balances: st.balances,
    };
    r
}

/// Body of the `init` boundary export: decode the context, then the
/// optional previous state carried in the argument bytes, invoke the
/// initializer exactly once, and hand back the encoded state it returns. A
/// decode failure anywhere aborts the call with no output.
pub fn init(ctx_bytes: Vec<u8>, rpc_bytes: Vec<u8>) -> (r: Result<Vec<u8>, DecodeError>)
    ensures
        match <ContractContext as ReadWrite>::spec_dec(ctx_bytes@) {
            Err(e) => r matches Err(e2) && e2 == e,
            Ok((ctx, nc)) => match <Option<TokenContractState> as ReadWrite>::spec_dec(
                rpc_bytes@,
            ) {
                Err(e) => r matches Err(e2) && e2 == e,
                Ok((base, nb)) => r matches Ok(out) && out@ == spec_enc_token_state(
                    spec_initialize(base),
                ),
            },
        },
{
    let mut ctx_reader = Cursor::new(ctx_bytes);
    proof {
        assert(ctx_reader.remaining() =~= ctx_bytes@);
    }
    let context = match ContractContext::read_from(&mut ctx_reader) {
        Err(e) => {
            return Err(e);
        },
        Ok(c) => c,
    };
    let mut rpc_reader = Cursor::new(rpc_bytes);
    proof {
        assert(rpc_reader.remaining() =~= rpc_bytes@);
    }
    let base_state = match Option::<TokenContractState>::read_from(&mut rpc_reader) {
        Err(e) => {
            return Err(e);
        },
        Ok(b) => b,
    };
    let state = initialize(context, base_state);
    let mut out: Vec<u8> = Vec::new();
    state.write_to(&mut out);
    proof {
        assert(out@ =~= Seq::<u8>::empty() + spec_enc_token_state(state.deep_view()));
    }
    Ok(out)
}

/// Body of the mint action's boundary export: decode the context, the
/// previous state, and the declared amount, in that order; invoke the
/// handler exactly once; return the encoded new state. A balance table
/// already at its count field's limit cannot take another entry and is
/// rejected outright.
pub fn action_mint(ctx_bytes: Vec<u8>, state_bytes: Vec<u8>, rpc_bytes: Vec<u8>) -> (r: Result<
    Vec<u8>,
    DecodeError,
>)
    ensures
        match <ContractContext as ReadWrite>::spec_dec(ctx_bytes@) {
            Err(e) => r matches Err(e2) && e2 == e,
            Ok((ctx, nc)) => match spec_dec_token_state(state_bytes@) {
                Err(e) => r matches Err(e2) && e2 == e,
                Ok((st, ns)) => {
                    if rpc_bytes@.len() < 8 {
                        r matches Err(e2) && e2 == DecodeError::Truncated
                    } else if st.balances.len() >= u32::MAX {
                        r matches Err(e2) && e2 == DecodeError::MalformedLength
                    } else {
                        r matches Ok(out) && out@ == spec_enc_token_state(
                            spec_mint(ctx, st, spec_u64_from_be_bytes(rpc_bytes@.take(8))),
                        )
                    }
                },
            },
        },
{
    let mut ctx_reader = Cursor::new(ctx_bytes);
    proof {
        assert(ctx_reader.remaining() =~= ctx_bytes@);
    }
    let context = match ContractContext::read_from(&mut ctx_reader) {
        Err(e) => {
            return Err(e);
        },
        Ok(c) => c,
    };
    let mut state_reader = Cursor::new(state_bytes);
    proof {
        assert(state_reader.remaining() =~= state_bytes@);
    }
    let state = match TokenContractState::read_from(&mut state_reader) {
        Err(e) => {
            return Err(e);
        },
        Ok(s) => s,
    };
    let mut rpc_reader = Cursor::new(rpc_bytes);
    proof {
        assert(rpc_reader.remaining() =~= rpc_bytes@);
    }
    if rpc_reader.remaining_len() < 8 {
        return Err(DecodeError::Truncated);
    }
    let amount = rpc_reader.read_u64_be();
    proof {
        assert(rpc_reader.stream().subrange(0, 8) =~= rpc_bytes@.take(8));
    }
    if state.balances.len() >= u32::MAX as usize {
        return Err(DecodeError::MalformedLength);
    }
    let new_state = mint(context, state, amount);
    let mut out: Vec<u8> = Vec::new();
    new_state.write_to(&mut out);
    proof {
        assert(out@ =~= Seq::<u8>::empty() + spec_enc_token_state(new_state.deep_view()));
    }
    Ok(out)
}

/// Body of the transfer action's boundary export: decode the context, the
/// previous state, then the declared destination address and amount, in
/// that order; invoke the handler exactly once; return the encoded new
/// state. A balance table too close to its count field's limit to take the
/// two entries a transfer may add is rejected outright.
pub fn action_transfer(ctx_bytes: Vec<u8>, state_bytes: Vec<u8>, rpc_bytes: Vec<u8>) -> (r: Result<
    Vec<u8>,
    DecodeError,
>)
    ensures
        match <ContractContext as ReadWrite>::spec_dec(ctx_bytes@) {
            Err(e) => r matches Err(e2) && e2 == e,
            Ok((ctx, nc)) => match spec_dec_token_state(state_bytes@) {
                Err(e) => r matches Err(e2) && e2 == e,
                Ok((st, ns)) => match spec_dec_address(rpc_bytes@) {
                    Err(e) => r matches Err(e2) && e2 == e,
                    Ok((dest, nd)) => {
                        if rpc_bytes@.skip(nd).len() < 8 {
                            r matches Err(e2) && e2 == DecodeError::Truncated
                        } else if st.balances.len() + 2 > u32::MAX {
                            r matches Err(e2) && e2 == DecodeError::MalformedLength
                        } else {
                            r matches Ok(out) && out@ == spec_enc_token_state(
                                spec_transfer(
                                    ctx,
                                    st,
                                    dest,
                                    spec_u64_from_be_bytes(rpc_bytes@.skip(nd).take(8)),
                                ),
                            )
                        }
                    },
                },
            },
        },
{
    let mut ctx_reader = Cursor::new(ctx_bytes);
    proof {
        assert(ctx_reader.remaining() =~= ctx_bytes@);
    }
    let context = match ContractContext::read_from(&mut ctx_reader) {
        Err(e) => {
            return Err(e);
        },
        Ok(c) => c,
    };
    let mut state_reader = Cursor::new(state_bytes);
    proof {
        assert(state_reader.remaining() =~= state_bytes@);
    }
    let state = match TokenContractState::read_from(&mut state_reader) {
        Err(e) => {
            return Err(e);
        },
        Ok(s) => s,
    };
    let mut rpc_reader = Cursor::new(rpc_bytes);
    proof {
        assert(rpc_reader.remaining() =~= rpc_bytes@);
    }
    let dest = match Address::read_from(&mut rpc_reader) {
        Err(e) => {
            return Err(e);
        },
        Ok(d) => d,
    };
    proof {
        assert(rpc_reader.remaining() =~= rpc_bytes@.skip(rpc_reader.offset()));
    }
    let ghost nd = rpc_reader.offset();
    if rpc_reader.remaining_len() < 8 {
        return Err(DecodeError::Truncated);
    }
    let amount = rpc_reader.read_u64_be();
    proof {
        assert(rpc_reader.stream().subrange(nd, nd + 8) =~= rpc_bytes@.skip(nd).take(8));
    }
    if state.balances.len() > (u32::MAX - 2) as usize {
        return Err(DecodeError::MalformedLength);
    }
    let new_state = transfer(context, state, dest, amount);
    let mut out: Vec<u8> = Vec::new();
    new_state.write_to(&mut out);
    proof {
        assert(out@ =~= Seq::<u8>::empty() + spec_enc_token_state(new_state.deep_view()));
    }
    Ok(out)
}

} // verus!
