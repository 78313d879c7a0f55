//! Blockchain state.
//!
//! What the relay remembers of the chain: the number of the latest block, and,
//! for that block only, the balance, the nonce and the certification of the
//! senders it has asked about. Everything that was remembered of senders is
//! forgotten when the latest block changes.

use crate::types::{Address, BlockNumber};
use crate::uint::U256;
use vstd::prelude::*;

verus! {

/// What `entries` remember: for each address the value of its last entry.
pub open spec fn remembered<V>(entries: Seq<(Address, V)>) -> Map<Seq<u8>, V>
    decreases entries.len(),
{
    if entries.len() == 0 {
        Map::empty()
    } else {
        remembered(entries.drop_last()).insert(entries.last().0@, entries.last().1)
    }
}

/// Values remembered for addresses.
#[derive(Debug)]
pub struct Cache<V> {
    entries: Vec<(Address, V)>,
}

impl<V> View for Cache<V> {
    type V = Map<Seq<u8>, V>;

    closed spec fn view(&self) -> Map<Seq<u8>, V> {
        remembered(self.entries@)
    }
}

impl<V: Copy> Cache<V> {
    /// A cache that remembers nothing.
    pub fn new() -> (cache: Self)
        ensures
            cache@ == Map::<Seq<u8>, V>::empty(),
    {
        Cache { entries: Vec::new() }
    }

    /// The value remembered for `address`, if there is one.
    pub fn get(&self, address: &Address) -> (value: Option<V>)
        ensures
            value == if self@.dom().contains(address@) {
                Some(self@[address@])
            } else {
                None
            },
    {
        let mut i: usize = self.entries.len();
        proof {
            assert(self.entries@.take(i as int) =~= self.entries@);
        }
        while i > 0
            invariant
                i <= self.entries@.len(),
                self@.dom().contains(address@) == remembered(
                    self.entries@.take(i as int),
                ).dom().contains(address@),
                self@.dom().contains(address@) ==> self@[address@] == remembered(
                    self.entries@.take(i as int),
                )[address@],
            decreases i,
        {
            i -= 1;
            proof {
                assert(self.entries@.take(i + 1).drop_last() =~= self.entries@.take(i as int));
                assert(self.entries@.take(i + 1).last() == self.entries@[i as int]);
            }
            if self.entries[i].0.is(address) {
                return Some(self.entries[i].1);
            }
        }
        proof {
            assert(self.entries@.take(0) =~= Seq::<(Address, V)>::empty());
        }
        None
    }

    /// Remembers `value` for `address`, in place of what was remembered for it.
    pub fn insert(&mut self, address: Address, value: V)
        ensures
            final(self)@ == old(self)@.insert(address@, value),
    {
        self.entries.push((address, value));
        proof {
            assert(self.entries@.drop_last() =~= old(self).entries@);
        }
    }

    /// Forgets everything.
    pub fn clear(&mut self)
        ensures
            final(self)@ == Map::<Seq<u8>, V>::empty(),
    {
        self.entries.clear();
    }
}

/// A [`Blockchain`] as a plain value.
pub struct BlockchainView {
    /// The number of the latest block.
    pub latest_block: BlockNumber,
    /// Balance and nonce of the senders asked about at the latest block.
    pub balance_and_nonce: Map<Seq<u8>, (U256, U256)>,
    /// Whether the senders asked about at the latest block are certified.
    pub certification: Map<Seq<u8>, bool>,
    /// The address of the contract that certifies senders, if there is one.
    pub certifier: Option<Seq<u8>>,
}

impl BlockchainView {
    /// What is known of the balance and nonce of `sender` without asking the
    /// chain.
    pub open spec fn balance_and_nonce(self, sender: Seq<u8>) -> Option<(U256, U256)> {
        if self.balance_and_nonce.dom().contains(sender) {
            Some(self.balance_and_nonce[sender])
        } else {
            None
        }
    }

    /// What is known of the certification of `sender` without asking the
    /// chain: every sender is certified where there is no certifier.
    pub open spec fn is_certified(self, sender: Seq<u8>) -> Option<bool> {
        if self.certifier is None {
            Some(true)
        } else if self.certification.dom().contains(sender) {
            Some(self.certification[sender])
        } else {
            None
        }
    }

    /// The state after the block of number `new` has become the latest.
    pub open spec fn advanced(self, new: BlockNumber) -> BlockchainView {
        BlockchainView {
            latest_block: new,
            balance_and_nonce: Map::empty(),
            certification: Map::empty(),
            certifier: self.certifier,
        }
    }
}

/// After a new latest block nothing that was remembered before is known:
/// the balance and nonce of every sender have to be asked for again, and so
/// has its certification where there is a certifier.
pub proof fn lemma_advance_forgets(before: BlockchainView, new: BlockNumber, sender: Seq<u8>)
    ensures
        before.advanced(new).balance_and_nonce(sender) is None,
        before.certifier is Some ==> before.advanced(new).is_certified(sender) is None,
        before.advanced(new).latest_block == new,
{
}

/// A structure responsible for maintaining and caching latest blockchain state, like:
/// - latest block number
/// - nonce for particular sender
#[derive(Debug)]
pub struct Blockchain {
    latest_block: BlockNumber,
    cached_balance_and_nonce: Cache<(U256, U256)>,
    cached_certification: Cache<bool>,
    certifier: Option<Address>,
}

impl View for Blockchain {
    type V = BlockchainView;

    closed spec fn view(&self) -> BlockchainView {
        BlockchainView {
            latest_block: self.latest_block,
            balance_and_nonce: self.cached_balance_and_nonce@,
            certification: self.cached_certification@,
            certifier: match self.certifier {
                Some(address) => Some(address@),
                None => None,
            },
        }
    }
}

impl Blockchain {
    /// Create a new cached blockchain state: block 0, nothing remembered.
    pub fn new(certifier: Option<Address>) -> (blockchain: Self)
        ensures
            blockchain@ == (BlockchainView {
                latest_block: 0,
                balance_and_nonce: Map::empty(),
                certification: Map::empty(),
                certifier: match certifier {
                    Some(address) => Some(address@),
                    None => None,
                },
            }),
    {
        Blockchain {
            latest_block: 0,
            cached_balance_and_nonce: Cache::new(),
            cached_certification: Cache::new(),
            certifier,
        }
    }

    /// Makes the block of number `new` the latest and forgets what was
    /// remembered of senders.
    pub fn update_latest_block(&mut self, new: BlockNumber)
        ensures
            final(self)@ == old(self)@.advanced(new),
    {
        self.latest_block = new;
        self.cached_balance_and_nonce.clear();
        self.cached_certification.clear();
    }

    /// Returns current latest block.
    pub fn latest_block(&self) -> (number: BlockNumber)
        ensures
            number == self@.latest_block,
    {
        self.latest_block
    }

    /// The address of the contract that certifies senders, if there is one.
    pub fn certifier(&self) -> (certifier: Option<Address>)
        ensures
            match certifier {
                Some(address) => self@.certifier == Some(address@),
                None => self@.certifier is None,
            },
    {
        self.certifier
    }

    /// The balance and nonce of `sender` as remembered; none where the chain
    /// has to be asked.
    pub fn balance_and_nonce(&self, sender: &Address) -> (known: Option<(U256, U256)>)
        ensures
            known == self@.balance_and_nonce(sender@),
    {
        self.cached_balance_and_nonce.get(sender)
    }

    /// Remembers the balance and nonce that the chain gave for `sender`.
    pub fn remember_balance_and_nonce(&mut self, sender: Address, balance: U256, nonce: U256)
        ensures
            final(self)@ == (BlockchainView {
                balance_and_nonce: old(self)@.balance_and_nonce.insert(sender@, (balance, nonce)),
                ..old(self)@
            }),
            final(self)@.balance_and_nonce(sender@) == Some((balance, nonce)),
    {
        self.cached_balance_and_nonce.insert(sender, (balance, nonce));
    }

    /// Checks whether address is certified on blockchain, as far as that is
    /// known: every sender is where there is no certifier; none where the
    /// certifier has to be asked.
    pub fn is_certified(&self, sender: &Address) -> (known: Option<bool>)
        ensures
            known == self@.is_certified(sender@),
    {
        match self.certifier {
            None => Some(true),
            Some(_) => self.cached_certification.get(sender),
        }
    }

    /// Remembers what the certifier said of `sender`.
    pub fn remember_certification(&mut self, sender: Address, certified: bool)
        ensures
            final(self)@ == (BlockchainView {
                certification: old(self)@.certification.insert(sender@, certified),
                ..old(self)@
            }),
            final(self)@.certifier is Some ==> final(self)@.is_certified(sender@) == Some(
                certified,
            ),
    {
        self.cached_certification.insert(sender, certified);
    }
}

/// Blockchain updater.
/// Responsible for feeding in latest block number to blockchain structure and
/// for saying which block numbers are to be announced.
#[derive(Debug)]
pub struct Updater {
    last_block: Option<BlockNumber>,
}

impl View for Updater {
    type V = Option<BlockNumber>;

    closed spec fn view(&self) -> Option<BlockNumber> {
        self.last_block
    }
}

impl Updater {
    /// Creates new blockchain updater, which has seen no block yet.
    pub fn new() -> (updater: Self)
        ensures
            updater@ is None,
    {
        Updater { last_block: None }
    }

    /// Takes the number of the latest block as the chain gave it. Where it
    /// differs from the number seen last, or none was seen yet, the blockchain
    /// state moves to it and the number is returned: it is to be announced.
    /// Otherwise nothing changes.
    pub fn observe(&mut self, blockchain: &mut Blockchain, block_number: BlockNumber) -> (announce:
        Option<BlockNumber>)
        ensures
            final(self)@ == Some(block_number),
            announce == if old(self)@ == Some(block_number) {
                None
            } else {
                Some(block_number)
            },
            final(blockchain)@ == if old(self)@ == Some(block_number) {
                old(blockchain)@
            } else {
                old(blockchain)@.advanced(block_number)
            },
    {
        let changed = match self.last_block {
            Some(block) => block != block_number,
            None => true,
        };
        if changed {
            blockchain.update_latest_block(block_number);
            self.last_block = Some(block_number);
            Some(block_number)
        } else {
            None
        }
    }
}

} // verus!
