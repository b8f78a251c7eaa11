//! The networks that the client can follow, with their genesis headers,
//! rules and checkpoints.

use crate::header::Header;
use crate::pow::{spec_target_or_zero, Params};
use crate::rules::Checkpoint;
use crate::uint256::{lemma_pow2_256, U256};
use vstd::arithmetic::power2::{lemma2_to64, lemma_pow2_adds, pow2};
use vstd::prelude::*;

verus! {

/// A Bitcoin network.
#[derive(Clone, Copy, Debug, PartialEq, Eq, Structural)]
pub enum Network {
    /// The main network.
    Mainnet,
    /// A local network for tests, where the difficulty never changes.
    Regtest,
}

/// The compact target `0x1d00ffff` stands for `0xffff * 2^208`, and
/// `0x207fffff` for `0x7fffff * 2^232`; both are positive.
pub proof fn lemma_limits()
    ensures
        spec_target_or_zero(0x1d00ffff) == 0xffff * pow2(208),
        spec_target_or_zero(0x207fffff) == 0x7fffff * pow2(232),
        spec_target_or_zero(0x1d00ffff) > 0,
        spec_target_or_zero(0x207fffff) > 0,
{
    lemma2_to64();
    lemma_pow2_256();
    lemma_pow2_adds(128, 64);
    lemma_pow2_adds(192, 16);
    lemma_pow2_adds(192, 32);
    lemma_pow2_adds(224, 8);
    let a: int = pow2(128) as int;
    let b: int = pow2(64) as int;
    assert(pow2(192) == 0x1_0000_0000_0000_0000_0000_0000_0000_0000_0000_0000_0000_0000int)
        by (nonlinear_arith)
        requires
            pow2(192) == a * b,
            a == 0x1_0000_0000_0000_0000_0000_0000_0000_0000int,
            b == 0x1_0000_0000_0000_0000int,
    ;
    let c: int = pow2(192) as int;
    assert(pow2(208) == c * 0x1_0000);
    assert(pow2(224) == c * 0x1_0000_0000);
    let d: int = pow2(224) as int;
    assert(pow2(232) == d * 0x100);
    assert(8 * (29 - 3) == 208);
    assert(8 * (32 - 3) == 232);
}

impl Network {
    /// The genesis header of the network.
    pub open spec fn spec_genesis(self) -> Header {
        match self {
            Network::Mainnet => Header {
                version: 1,
                prev_blockhash: U256 { hi: 0, lo: 0 },
                merkle_root: U256 {
                    hi: 0x4a5e1e4baab89f3a32518a88c31bc87f,
                    lo: 0x618f76673e2cc77ab2127b7afdeda33b,
                },
                time: 1231006505,
                bits: 0x1d00ffff,
                nonce: 2083236893,
            },
            Network::Regtest => Header {
                version: 1,
                prev_blockhash: U256 { hi: 0, lo: 0 },
                merkle_root: U256 {
                    hi: 0x4a5e1e4baab89f3a32518a88c31bc87f,
                    lo: 0x618f76673e2cc77ab2127b7afdeda33b,
                },
                time: 1296688602,
                bits: 0x207fffff,
                nonce: 2,
            },
        }
    }

    /// The rules of the network.
    pub open spec fn spec_params(self) -> Params {
        match self {
            Network::Mainnet => Params {
                pow_limit_bits: 0x1d00ffff,
                retarget_interval: 2016,
                target_timespan: 1209600,
                no_retargeting: false,
            },
            Network::Regtest => Params {
                pow_limit_bits: 0x207fffff,
                retarget_interval: 2016,
                target_timespan: 1209600,
                no_retargeting: true,
            },
        }
    }

    /// The compact filter of the network's genesis block.
    pub open spec fn spec_genesis_filter(self) -> Seq<u8> {
        match self {
            Network::Mainnet => seq![0x01u8, 0x7fu8, 0xa8u8, 0x80u8],
            Network::Regtest => seq![0x01u8, 0x47u8, 0x56u8, 0xc0u8],
        }
    }

    /// The name of the network's data directory.
    pub open spec fn spec_name(self) -> Seq<char> {
        match self {
            Network::Mainnet => "bitcoin"@,
            Network::Regtest => "regtest"@,
        }
    }

    /// The genesis header of the network.
    pub fn genesis(&self) -> (r: Header)
        ensures
            r == self.spec_genesis(),
    {
        let merkle_root = U256 {
            hi: 0x4a5e1e4baab89f3a32518a88c31bc87f,
            lo: 0x618f76673e2cc77ab2127b7afdeda33b,
        };
        match self {
            Network::Mainnet => Header {
                version: 1,
                prev_blockhash: U256::zero(),
                merkle_root,
                time: 1231006505,
                bits: 0x1d00ffff,
                nonce: 2083236893,
            },
            Network::Regtest => Header {
                version: 1,
                prev_blockhash: U256::zero(),
                merkle_root,
                time: 1296688602,
                bits: 0x207fffff,
                nonce: 2,
            },
        }
    }

    /// The compact filter of the network's genesis block.
    pub fn genesis_filter(&self) -> (r: Vec<u8>)
        ensures
            r@ == self.spec_genesis_filter(),
    {
        let mut out: Vec<u8> = Vec::new();
        out.push(0x01);
        match self {
            Network::Mainnet => {
                out.push(0x7f);
                out.push(0xa8);
                out.push(0x80);
            },
            Network::Regtest => {
                out.push(0x47);
                out.push(0x56);
                out.push(0xc0);
            },
        }
        assert(out@ =~= self.spec_genesis_filter());
        out
    }

    /// The hash of the network's genesis header.
    pub fn genesis_hash(&self) -> (r: U256)
        ensures
            r == self.spec_genesis().spec_hash(),
    {
        self.genesis().hash()
    }

    /// The rules of the network. They make sense.
    pub fn params(&self) -> (r: Params)
        ensures
            r == self.spec_params(),
            r.wf(),
    {
        proof {
            lemma_limits();
        }
        match self {
            Network::Mainnet => Params {
                pow_limit_bits: 0x1d00ffff,
                retarget_interval: 2016,
                target_timespan: 1209600,
                no_retargeting: false,
            },
            Network::Regtest => Params {
                pow_limit_bits: 0x207fffff,
                retarget_interval: 2016,
                target_timespan: 1209600,
                no_retargeting: true,
            },
        }
    }

    /// The name of the network's data directory.
    pub fn as_str(&self) -> (r: &'static str)
        ensures
            r@ == self.spec_name(),
    {
        match self {
            Network::Mainnet => "bitcoin",
            Network::Regtest => "regtest",
        }
    }

    /// The checkpoints of the network, in ascending order of height.
    pub open spec fn spec_checkpoints(self) -> Seq<Checkpoint> {
        match self {
            Network::Mainnet => seq![
                Checkpoint {
                    height: 11111,
                    hash: U256 {
                        hi: 0x0000000069e244f73d78e8fd29ba2fd2,
                        lo: 0xed618bd6fa2ee92559f542fdb26e7c1d,
                    },
                },
                Checkpoint {
                    height: 33333,
                    hash: U256 {
                        hi: 0x000000002dd5588a74784eaa7ab0507a,
                        lo: 0x18ad16a236e7b1ce69f00d7ddfb5d0a6,
                    },
                },
                Checkpoint {
                    height: 74000,
                    hash: U256 {
                        hi: 0x0000000000573993a3c9e41ce34471c0,
                        lo: 0x79dcf5f52a0e824a81e7f953b8661a20,
                    },
                },
                Checkpoint {
                    height: 105000,
                    hash: U256 {
                        hi: 0x00000000000291ce28027faea320c8d2,
                        lo: 0xb054b2e0fe44a773f3eefb151d6bdc97,
                    },
                },
            ],
            Network::Regtest => Seq::<Checkpoint>::empty(),
        }
    }

    /// The checkpoints of the network, in ascending order of height.
    pub fn checkpoints(&self) -> (r: Vec<Checkpoint>)
        ensures
            r@ == self.spec_checkpoints(),
    {
        let mut out: Vec<Checkpoint> = Vec::new();
        match self {
            Network::Mainnet => {
                out.push(
                    Checkpoint {
                        height: 11111,
                        hash: U256 {
                            hi: 0x0000000069e244f73d78e8fd29ba2fd2,
                            lo: 0xed618bd6fa2ee92559f542fdb26e7c1d,
                        },
                    },
                );
                out.push(
                    Checkpoint {
                        height: 33333,
                        hash: U256 {
                            hi: 0x000000002dd5588a74784eaa7ab0507a,
                            lo: 0x18ad16a236e7b1ce69f00d7ddfb5d0a6,
                        },
                    },
                );
                out.push(
                    Checkpoint {
                        height: 74000,
                        hash: U256 {
                            hi: 0x0000000000573993a3c9e41ce34471c0,
                            lo: 0x79dcf5f52a0e824a81e7f953b8661a20,
                        },
                    },
                );
                out.push(
                    Checkpoint {
                        height: 105000,
                        hash: U256 {
                            hi: 0x00000000000291ce28027faea320c8d2,
                            lo: 0xb054b2e0fe44a773f3eefb151d6bdc97,
                        },
                    },
                );
            },
            Network::Regtest => {},
        }
        assert(out@ =~= self.spec_checkpoints());
        out
    }
}

} // verus!
