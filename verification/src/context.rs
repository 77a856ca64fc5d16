//! The immutable snapshot of the execution environment handed to every
//! entry point: the involved identities, the block clocks, and the
//! transaction hashes. It travels as the plain concatenation of its fields,
//! with no length prefix and no versioning tag.

use vstd::prelude::*;

use crate::DecodeError;
use crate::address::Address;
use crate::address::AddressView;
use crate::address::spec_dec_address;
use crate::address::spec_enc_address;
use crate::hash::spec_dec_hash;
use crate::hash::spec_enc_hash;
use crate::intbytes::lemma_i64_be_round_trip;
use crate::intbytes::spec_i64_from_be_bytes;
use crate::intbytes::spec_i64_to_be_bytes;
use crate::serialization::Cursor;
use crate::serialization::ReadInt;
use crate::serialization::ReadWrite;
use crate::serialization::WriteInt;

verus! {

/// What decoding a big-endian signed 64-bit clock reads off a stream.
pub open spec fn spec_dec_i64(s: Seq<u8>) -> Result<(i64, int), DecodeError> {
    if s.len() >= 8 {
        Ok((spec_i64_from_be_bytes(s.take(8)), 8))
    } else {
        Err(DecodeError::Truncated)
    }
}

/// The execution environment of one call.
#[derive(Debug)]
pub struct ContractContext {
    pub owner: Address,
    pub contract_address: Address,
    pub sender: Address,
    pub block_time: i64,
    pub block_production_time: i64,
    pub current_transaction: crate::hash::Hash,
    pub original_transaction: crate::hash::Hash,
}

/// The abstract value of a [`ContractContext`].
pub struct ContractContextView {
    pub owner: AddressView,
    pub contract_address: AddressView,
    pub sender: AddressView,
    pub block_time: i64,
    pub block_production_time: i64,
    pub current_transaction: Seq<u8>,
    pub original_transaction: Seq<u8>,
}

impl DeepView for ContractContext {
    type V = ContractContextView;

    open spec fn deep_view(&self) -> ContractContextView {
        ContractContextView {
            owner: self.owner.deep_view(),
            contract_address: self.contract_address.deep_view(),
            sender: self.sender.deep_view(),
            block_time: self.block_time,
            block_production_time: self.block_production_time,
            current_transaction: self.current_transaction.deep_view(),
            original_transaction: self.original_transaction.deep_view(),
        }
    }
}

impl ReadWrite for ContractContext {
    open spec fn wf(&self) -> bool {
        &&& crate::address::address_wf(self.owner)
        &&& crate::address::address_wf(self.contract_address)
        &&& crate::address::address_wf(self.sender)
        &&& crate::hash::hash_wf(self.current_transaction)
        &&& crate::hash::hash_wf(self.original_transaction)
    }

    open spec fn spec_enc(m: ContractContextView) -> Seq<u8> {
        spec_enc_address(m.owner) + spec_enc_address(m.contract_address) + spec_enc_address(
            m.sender,
        ) + spec_i64_to_be_bytes(m.block_time) + spec_i64_to_be_bytes(m.block_production_time)
            + spec_enc_hash(m.current_transaction) + spec_enc_hash(m.original_transaction)
    }

    open spec fn spec_dec(s: Seq<u8>) -> Result<(ContractContextView, int), DecodeError> {
        match spec_dec_address(s) {
            Err(e) => Err(e),
            Ok((owner, n1)) => match spec_dec_address(s.skip(n1)) {
                Err(e) => Err(e),
                Ok((contract_address, n2)) => match spec_dec_address(s.skip(n1 + n2)) {
                    Err(e) => Err(e),
                    Ok((sender, n3)) => match spec_dec_i64(s.skip(n1 + n2 + n3)) {
                        Err(e) => Err(e),
                        Ok((block_time, n4)) => match spec_dec_i64(s.skip(n1 + n2 + n3 + n4)) {
                            Err(e) => Err(e),
                            Ok((block_production_time, n5)) => match spec_dec_hash(
                                s.skip(n1 + n2 + n3 + n4 + n5),
                            ) {
                                Err(e) => Err(e),
                                Ok((current_transaction, n6)) => match spec_dec_hash(
                                    s.skip(n1 + n2 + n3 + n4 + n5 + n6),
                                ) {
                                    Err(e) => Err(e),
                                    Ok((original_transaction, n7)) => Ok(
                                        (
                                            ContractContextView {
                                                owner,
                                                contract_address,
                                                sender,
                                                block_time,
                                                block_production_time,
                                                current_transaction,
                                                original_transaction,
                                            },
                                            n1 + n2 + n3 + n4 + n5 + n6 + n7,
                                        ),
                                    ),
                                },
                            },
                        },
                    },
                },
            },
        }
    }

    proof fn lemma_dec_bounds(s: Seq<u8>) {
        match spec_dec_address(s) {
            Err(_) => {},
            Ok((owner, n1)) => {
                Address::lemma_dec_bounds(s);
                let s1 = s.skip(n1);
                match spec_dec_address(s1) {
                    Err(_) => {},
                    Ok((ca, n2)) => {
                        Address::lemma_dec_bounds(s1);
                        assert(s.skip(n1 + n2) =~= s1.skip(n2));
                        let s2 = s.skip(n1 + n2);
                        match spec_dec_address(s2) {
                            Err(_) => {},
                            Ok((se, n3)) => {
                                Address::lemma_dec_bounds(s2);
                                assert(s.skip(n1 + n2 + n3) =~= s2.skip(n3));
                                let s3 = s.skip(n1 + n2 + n3);
                                match spec_dec_i64(s3) {
                                    Err(_) => {},
                                    Ok((bt, n4)) => {
                                        assert(s.skip(n1 + n2 + n3 + n4) =~= s3.skip(n4));
                                        let s4 = s.skip(n1 + n2 + n3 + n4);
                                        match spec_dec_i64(s4) {
                                            Err(_) => {},
                                            Ok((bpt, n5)) => {
                                                assert(s.skip(n1 + n2 + n3 + n4 + n5) =~= s4.skip(
                                                    n5,
                                                ));
                                                let s5 = s.skip(n1 + n2 + n3 + n4 + n5);
                                                match spec_dec_hash(s5) {
                                                    Err(_) => {},
                                                    Ok((ct, n6)) => {
                                                        crate::hash::Hash::lemma_dec_bounds(s5);
                                                        assert(s.skip(n1 + n2 + n3 + n4 + n5 + n6)
                                                            =~= s5.skip(n6));
                                                        let s6 = s.skip(
                                                            n1 + n2 + n3 + n4 + n5 + n6,
                                                        );
                                                        match spec_dec_hash(s6) {
                                                            Err(_) => {},
                                                            Ok((ot, n7)) => {
                                                                crate::hash::Hash::lemma_dec_bounds(s6);
                                                            },
                                                        }
                                                    },
                                                }
                                            },
                                        }
                                    },
                                }
                            },
                        }
                    },
                }
            },
        }
    }

    proof fn lemma_round_trip(v: &ContractContext, tail: Seq<u8>) {
        let m = v.deep_view();
        let e1 = Address::spec_enc(m.owner);
        let e2 = Address::spec_enc(m.contract_address);
        let e3 = Address::spec_enc(m.sender);
        let e4 = spec_i64_to_be_bytes(m.block_time);
        let e5 = spec_i64_to_be_bytes(m.block_production_time);
        let e6 = crate::hash::Hash::spec_enc(m.current_transaction);
        let e7 = crate::hash::Hash::spec_enc(m.original_transaction);
        let whole = Self::spec_enc(m) + tail;
        let t2 = e2 + (e3 + (e4 + (e5 + (e6 + (e7 + tail)))));
        let t3 = e3 + (e4 + (e5 + (e6 + (e7 + tail))));
        let t4 = e4 + (e5 + (e6 + (e7 + tail)));
        let t5 = e5 + (e6 + (e7 + tail));
        let t6 = e6 + (e7 + tail);
        let t7 = e7 + tail;
        assert(whole =~= e1 + t2);
        Address::lemma_round_trip(&v.owner, t2);
        assert((e1 + t2).skip(e1.len() as int) =~= t2);
        Address::lemma_round_trip(&v.contract_address, t3);
        assert(t2.skip(e2.len() as int) =~= t3);
        Address::lemma_round_trip(&v.sender, t4);
        assert(t3.skip(e3.len() as int) =~= t4);
        lemma_i64_be_round_trip(m.block_time);
        assert(t4.take(8) =~= e4);
        assert(t4.skip(8) =~= t5);
        lemma_i64_be_round_trip(m.block_production_time);
        assert(t5.take(8) =~= e5);
        assert(t5.skip(8) =~= t6);
        crate::hash::Hash::lemma_round_trip(&v.current_transaction, t7);
        assert(t6.skip(e6.len() as int) =~= t7);
        crate::hash::Hash::lemma_round_trip(&v.original_transaction, tail);
        assert(whole.skip(e1.len() as int) =~= t2);
        assert(whole.skip(e1.len() + e2.len() as int) =~= t3);
        assert(whole.skip(e1.len() + e2.len() + e3.len() as int) =~= t4);
        assert(whole.skip(e1.len() + e2.len() + e3.len() + 8int) =~= t5);
        assert(whole.skip(e1.len() + e2.len() + e3.len() + 16int) =~= t6);
        assert(whole.skip(e1.len() + e2.len() + e3.len() + 16int + e6.len()) =~= t7);
    }

    fn read_from(reader: &mut Cursor) -> (r: Result<ContractContext, DecodeError>) {
        let ghost s0 = reader.remaining();
        let owner = match Address::read_from(reader) {
            Err(e) => {
                return Err(e);
            },
            Ok(v) => v,
        };
        proof {
            Address::lemma_dec_bounds(s0);
            assert(reader.remaining() =~= s0.skip(reader.offset() - old(reader).offset()));
        }
        let ghost s1 = reader.remaining();
        let ghost off1 = reader.offset();
        let contract_address = match Address::read_from(reader) {
            Err(e) => {
                return Err(e);
            },
            Ok(v) => v,
        };
        proof {
            Address::lemma_dec_bounds(s1);
            assert(reader.remaining() =~= s1.skip(reader.offset() - off1));
            assert(reader.remaining() =~= s0.skip(reader.offset() - old(reader).offset()));
        }
        let ghost s2 = reader.remaining();
        let ghost off2 = reader.offset();
        let sender = match Address::read_from(reader) {
            Err(e) => {
                return Err(e);
            },
            Ok(v) => v,
        };
        proof {
            Address::lemma_dec_bounds(s2);
            assert(reader.remaining() =~= s2.skip(reader.offset() - off2));
            assert(reader.remaining() =~= s0.skip(reader.offset() - old(reader).offset()));
        }
        let ghost s3 = reader.remaining();
        let ghost off3 = reader.offset();
        if reader.remaining_len() < 8 {
            return Err(DecodeError::Truncated);
        }
        let block_time = reader.read_i64_be();
        proof {
            assert(reader.stream().subrange(off3, off3 + 8) =~= s3.take(8));
            assert(reader.remaining() =~= s3.skip(8));
            assert(reader.remaining() =~= s0.skip(reader.offset() - old(reader).offset()));
        }
        let ghost s4 = reader.remaining();
        let ghost off4 = reader.offset();
        if reader.remaining_len() < 8 {
            return Err(DecodeError::Truncated);
        }
        let block_production_time = reader.read_i64_be();
        proof {
            assert(reader.stream().subrange(off4, off4 + 8) =~= s4.take(8));
            assert(reader.remaining() =~= s4.skip(8));
            assert(reader.remaining() =~= s0.skip(reader.offset() - old(reader).offset()));
        }
        let ghost s5 = reader.remaining();
        let ghost off5 = reader.offset();
        let current_transaction = match crate::hash::Hash::read_from(reader) {
            Err(e) => {
                return Err(e);
            },
            Ok(v) => v,
        };
        proof {
            crate::hash::Hash::lemma_dec_bounds(s5);
            assert(reader.remaining() =~= s5.skip(reader.offset() - off5));
            assert(reader.remaining() =~= s0.skip(reader.offset() - old(reader).offset()));
        }
        let original_transaction = match crate::hash::Hash::read_from(reader) {
            Err(e) => {
                return Err(e);
            },
            Ok(v) => v,
        };
        Ok(
            ContractContext {
                owner,
                contract_address,
                sender,
                block_time,
                block_production_time,
                current_transaction,
                original_transaction,
            },
        )
    }

    fn write_to(&self, writer: &mut Vec<u8>) {
        self.owner.write_to(writer);
        self.contract_address.write_to(writer);
        self.sender.write_to(writer);
        writer.write_i64_be(self.block_time);
        writer.write_i64_be(self.block_production_time);
        self.current_transaction.write_to(writer);
        self.original_transaction.write_to(writer);
        proof {
            let m = self.deep_view();
            assert(old(writer)@ + Address::spec_enc(m.owner) + Address::spec_enc(
                m.contract_address,
            ) + Address::spec_enc(m.sender) + spec_i64_to_be_bytes(m.block_time)
                + spec_i64_to_be_bytes(m.block_production_time) + crate::hash::Hash::spec_enc(
                m.current_transaction,
            ) + crate::hash::Hash::spec_enc(m.original_transaction) =~= old(writer)@
                + <ContractContext as ReadWrite>::spec_enc(m));
        }
    }
}

impl PartialEq for ContractContext {
    fn eq(&self, other: &ContractContext) -> (r: bool) {
        let r = self.owner == other.owner && self.contract_address == other.contract_address
            && self.sender == other.sender && self.block_time == other.block_time
            && self.block_production_time == other.block_production_time
            && self.current_transaction == other.current_transaction
            && self.original_transaction == other.original_transaction;
        proof {
            if r {
                assert(self.deep_view() == other.deep_view());
            }
        }
        r
    }
}

impl Eq for ContractContext {

}

impl vstd::std_specs::cmp::PartialEqSpecImpl for ContractContext {
    open spec fn obeys_eq_spec() -> bool {
        true
    }

    open spec fn eq_spec(&self, other: &ContractContext) -> bool {
        self.deep_view() == other.deep_view()
    }
}

} // verus!
