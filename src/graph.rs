//! The configured chains and the channel links between them.

use vstd::prelude::*;

verus! {

/// One configured network.
pub struct ChainEntry {
    pub key: String,
    pub name: String,
    pub chain_id: String,
    pub address_prefix: String,
    pub endpoint: String,
}

/// A configured channel: assets reach `to_chain_id` from `from_chain_id`
/// over `channel_id`, the channel's identifier on the receiving side.
pub struct ChannelLink {
    pub from_chain_id: String,
    pub to_chain_id: String,
    pub channel_id: String,
}

/// The chains and links of a configuration, read-only once built.
pub struct RouteGraph {
    pub chains: Vec<ChainEntry>,
    pub links: Vec<ChannelLink>,
}

/// The link at `i` delivers assets into `cur` over `ch`.
pub open spec fn link_matches(links: Seq<ChannelLink>, i: int, cur: Seq<char>, ch: Seq<char>) -> bool {
    links[i].to_chain_id@ == cur && links[i].channel_id@ == ch
}

/// Source chain of the first link at or after `i` that delivers into `cur`
/// over `ch`.
pub open spec fn predecessor_from(links: Seq<ChannelLink>, cur: Seq<char>, ch: Seq<char>, i: int) -> Option<Seq<char>>
    decreases links.len() - i,
{
    if i < 0 || i >= links.len() {
        None
    } else if link_matches(links, i, cur, ch) {
        Some(links[i].from_chain_id@)
    } else {
        predecessor_from(links, cur, ch, i + 1)
    }
}

/// Source chain of the first configured link that delivers into `cur` over `ch`.
pub open spec fn predecessor(links: Seq<ChannelLink>, cur: Seq<char>, ch: Seq<char>) -> Option<Seq<char>> {
    predecessor_from(links, cur, ch, 0)
}

/// Key of the first chain at or after `i` whose chain id is `id`.
pub open spec fn key_from(chains: Seq<ChainEntry>, id: Seq<char>, i: int) -> Option<Seq<char>>
    decreases chains.len() - i,
{
    if i < 0 || i >= chains.len() {
        None
    } else if chains[i].chain_id@ == id {
        Some(chains[i].key@)
    } else {
        key_from(chains, id, i + 1)
    }
}

/// Key of the configured chain whose chain id is `id`.
pub open spec fn key_of(chains: Seq<ChainEntry>, id: Seq<char>) -> Option<Seq<char>> {
    key_from(chains, id, 0)
}

/// How a chain id is shown in a route: its chain's key, or the id itself
/// when no chain carries it.
pub open spec fn label(chains: Seq<ChainEntry>, id: Seq<char>) -> Seq<char> {
    match key_of(chains, id) {
        Some(k) => k,
        None => id,
    }
}

/// Every link joins two configured chains.
pub open spec fn links_configured(chains: Seq<ChainEntry>, links: Seq<ChannelLink>) -> bool {
    forall|i: int| 0 <= i < links.len() ==> {
        &&& #[trigger] key_of(chains, links[i].from_chain_id@) is Some
        &&& key_of(chains, links[i].to_chain_id@) is Some
    }
}

/// No two configured chains share a chain id.
pub open spec fn chain_ids_unique(chains: Seq<ChainEntry>) -> bool {
    forall|i: int, j: int|
        0 <= i < j < chains.len() ==> chains[i].chain_id@ != chains[j].chain_id@
}

/// A configuration that cannot be used.
#[derive(Clone, Copy, Debug, PartialEq, Eq, Structural)]
pub enum ConfigError {
    /// The chain at `index` repeats the chain id of an earlier chain.
    DuplicateChainId { index: usize },
    /// The link at `index` names a chain id that no configured chain carries.
    UnknownChainInLink { index: usize },
}

/// The key of the first chain of `chains` whose chain id is `chain_id`.
fn find_key(chains: &Vec<ChainEntry>, chain_id: &String) -> (r: Option<String>)
    ensures
        match r {
            Some(k) => key_of(chains@, chain_id@) == Some(k@),
            None => key_of(chains@, chain_id@) is None,
        },
{
    let mut i: usize = 0;
    while i < chains.len()
        invariant
            0 <= i <= chains@.len(),
            key_of(chains@, chain_id@) == key_from(chains@, chain_id@, i as int),
        decreases chains@.len() - i,
    {
        if chains[i].chain_id == *chain_id {
            return Some(chains[i].key.clone());
        }
        i = i + 1;
    }
    None
}

impl RouteGraph {
    /// The graph of `chains` and `links`. It is refused when two chains
    /// share a chain id (the error names the first chain that repeats one),
    /// or else when a link names a chain id that no chain carries (the error
    /// names the first such link).
    pub fn new(chains: Vec<ChainEntry>, links: Vec<ChannelLink>) -> (r: Result<RouteGraph, ConfigError>)
        ensures
            match r {
                Ok(g) => chain_ids_unique(chains@) && links_configured(chains@, links@)
                    && g.chains@ == chains@ && g.links@ == links@,
                Err(e) => match e {
                    ConfigError::DuplicateChainId { index } => index < chains@.len()
                        && chain_ids_unique(chains@.subrange(0, index as int))
                        && exists|j: int| 0 <= j < index && chains@[j].chain_id@ == chains@[index as int].chain_id@,
                    ConfigError::UnknownChainInLink { index } => chain_ids_unique(chains@)
                        && index < links@.len()
                        && links_configured(chains@, links@.subrange(0, index as int))
                        && (key_of(chains@, links@[index as int].from_chain_id@) is None
                            || key_of(chains@, links@[index as int].to_chain_id@) is None),
                },
            },
    {
        let mut i: usize = 0;
        while i < chains.len()
            invariant
                0 <= i <= chains@.len(),
                chain_ids_unique(chains@.subrange(0, i as int)),
            decreases chains@.len() - i,
        {
            let mut j: usize = 0;
            while j < i
                invariant
                    0 <= j <= i < chains@.len(),
                    chain_ids_unique(chains@.subrange(0, i as int)),
                    forall|k: int| 0 <= k < j ==> chains@[k].chain_id@ != chains@[i as int].chain_id@,
                decreases i - j,
            {
                if chains[j].chain_id == chains[i].chain_id {
                    proof {
                        assert(chains@[j as int].chain_id@ == chains@[i as int].chain_id@);
                    }
                    return Err(ConfigError::DuplicateChainId { index: i });
                }
                j = j + 1;
            }
            proof {
                let s = chains@.subrange(0, i + 1);
                assert forall|x: int, y: int| 0 <= x < y < s.len() implies s[x].chain_id@ != s[y].chain_id@ by {
                    if y < i {
                        assert(chains@.subrange(0, i as int)[x] == s[x]);
                        assert(chains@.subrange(0, i as int)[y] == s[y]);
                    }
                }
            }
            i = i + 1;
        }
        assert(chains@.subrange(0, chains@.len() as int) =~= chains@);
        let mut l: usize = 0;
        while l < links.len()
            invariant
                0 <= l <= links@.len(),
                chain_ids_unique(chains@),
                links_configured(chains@, links@.subrange(0, l as int)),
            decreases links@.len() - l,
        {
            let known_from = find_key(&chains, &links[l].from_chain_id).is_some();
            let known_to = find_key(&chains, &links[l].to_chain_id).is_some();
            if !known_from || !known_to {
                return Err(ConfigError::UnknownChainInLink { index: l });
            }
            proof {
                let s = links@.subrange(0, l + 1);
                assert forall|x: int| 0 <= x < s.len() implies {
                    &&& #[trigger] key_of(chains@, s[x].from_chain_id@) is Some
                    &&& key_of(chains@, s[x].to_chain_id@) is Some
                } by {
                    if x < l {
                        assert(links@.subrange(0, l as int)[x] == s[x]);
                    }
                }
            }
            l = l + 1;
        }
        assert(links@.subrange(0, links@.len() as int) =~= links@);
        Ok(RouteGraph { chains, links })
    }

    /// The chain from which assets reach `current_chain_id` over `channel_id`.
    pub fn find_predecessor(&self, current_chain_id: &String, channel_id: &String) -> (r: Option<String>)
        ensures
            match r {
                Some(p) => predecessor(self.links@, current_chain_id@, channel_id@) == Some(p@),
                None => predecessor(self.links@, current_chain_id@, channel_id@) is None,
            },
    {
        let mut i: usize = 0;
        while i < self.links.len()
            invariant
                0 <= i <= self.links@.len(),
                predecessor(self.links@, current_chain_id@, channel_id@)
                    == predecessor_from(self.links@, current_chain_id@, channel_id@, i as int),
            decreases self.links@.len() - i,
        {
            let link = &self.links[i];
            if link.to_chain_id == *current_chain_id && link.channel_id == *channel_id {
                return Some(link.from_chain_id.clone());
            }
            i = i + 1;
        }
        None
    }

    /// The key of the configured chain whose chain id is `chain_id`.
    pub fn chain_name_by_chain_id(&self, chain_id: &String) -> (r: Option<String>)
        ensures
            match r {
                Some(k) => key_of(self.chains@, chain_id@) == Some(k@),
                None => key_of(self.chains@, chain_id@) is None,
            },
    {
        find_key(&self.chains, chain_id)
    }

    /// How `chain_id` is shown in a route.
    pub fn chain_label(&self, chain_id: &String) -> (r: String)
        ensures
            r@ == label(self.chains@, chain_id@),
    {
        match self.chain_name_by_chain_id(chain_id) {
            Some(k) => k,
            None => chain_id.clone(),
        }
    }
}

} // verus!
