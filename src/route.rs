//! Hop paths and the routes they resolve to.

use vstd::prelude::*;
use vstd::string::*;
use crate::graph::{ChannelLink, RouteGraph, key_of, label, links_configured, predecessor, predecessor_from};
use crate::text::{last_slash, lemma_last_slash_bounds, starts_with_seq, starts_with_str};

verus! {

/// The prefix that marks a channel segment of a hop path.
pub open spec fn channel_prefix() -> Seq<char> {
    seq!['c', 'h', 'a', 'n', 'n', 'e', 'l', '-']
}

/// `seg` alone when it names a channel, nothing otherwise.
pub open spec fn keep_channel(seg: Seq<char>) -> Seq<Seq<char>> {
    if starts_with_seq(seg, channel_prefix()) {
        seq![seg]
    } else {
        seq![]
    }
}

/// The channel segments of a `/`-separated hop path, oldest hop first.
pub open spec fn hop_channels(s: Seq<char>) -> Seq<Seq<char>>
    decreases s.len(),
    via hop_channels_decreases
{
    let k = last_slash(s);
    if k < 0 {
        keep_channel(s)
    } else {
        hop_channels(s.subrange(0, k)) + keep_channel(s.subrange(k + 1, s.len() as int))
    }
}

#[via_fn]
proof fn hop_channels_decreases(s: Seq<char>) {
    lemma_last_slash_bounds(s);
}

/// The chains reached by walking back from `cur` over `hops`, newest hop
/// first; a hop with no matching link is passed over.
pub open spec fn walk(links: Seq<ChannelLink>, cur: Seq<char>, hops: Seq<Seq<char>>) -> Seq<Seq<char>>
    decreases hops.len(),
{
    if hops.len() == 0 {
        seq![]
    } else {
        match predecessor(links, cur, hops.last()) {
            Some(p) => seq![p] + walk(links, p, hops.drop_last()),
            None => walk(links, cur, hops.drop_last()),
        }
    }
}

/// The chains of a transfer, from the first one it left to `cur`.
pub open spec fn visited(links: Seq<ChannelLink>, cur: Seq<char>, hops: Seq<Seq<char>>) -> Seq<Seq<char>> {
    seq![cur] + walk(links, cur, hops)
}

/// The labels of `v`, last element first.
pub open spec fn labels_reversed(g: RouteGraph, v: Seq<Seq<char>>) -> Seq<Seq<char>> {
    Seq::new(v.len(), |j: int| label(g.chains@, v[v.len() - 1 - j]))
}

/// The route of an asset observed on `cur` with hop path `path`: `origin`,
/// then the chains it passed through, ending with `cur`; `origin` is not
/// repeated when the walk already starts there.
pub open spec fn route_of(g: RouteGraph, path: Seq<char>, cur: Seq<char>, origin: Seq<char>) -> Seq<Seq<char>> {
    let fwd = labels_reversed(g, visited(g.links@, cur, hop_channels(path)));
    if fwd[0] == origin {
        fwd
    } else {
        seq![origin] + fwd
    }
}

/// How many hops of `path` found no configured link.
pub open spec fn unresolved_of(g: RouteGraph, path: Seq<char>, cur: Seq<char>) -> int {
    hop_channels(path).len() - walk(g.links@, cur, hop_channels(path)).len()
}

/// A resolved route and the number of hops that could not be matched to a
/// configured link (zero when the route is complete).
pub struct RouteResolution {
    pub route: Vec<String>,
    pub unresolved_hops: usize,
}

impl RouteResolution {
    /// Every hop of the path was matched to a configured link.
    pub fn is_complete(&self) -> (r: bool)
        ensures
            r == (self.unresolved_hops == 0),
    {
        self.unresolved_hops == 0
    }
}

/// The channel segments of `path`, oldest hop first.
pub fn hop_channels_of(path: &str) -> (r: Vec<String>)
    ensures
        r.deep_view() == hop_channels(path@),
{
    let n = path.unicode_len();
    let mut out: Vec<String> = Vec::new();
    let mut start: usize = 0;
    let mut i: usize = 0;
    proof {
        reveal_strlit("channel-");
        assert("channel-"@ =~= channel_prefix());
    }
    while i < n
        invariant
            n == path@.len(),
            0 <= start <= i <= n,
            "channel-"@ == channel_prefix(),
            start == last_slash(path@.subrange(0, i as int)) + 1,
            out.deep_view() == if start == 0 {
                Seq::<Seq<char>>::empty()
            } else {
                hop_channels(path@.subrange(0, start - 1))
            },
        decreases n - i,
    {
        let ghost s = path@;
        assert(s.subrange(0, i + 1).drop_last() =~= s.subrange(0, i as int));
        if path.get_char(i) == '/' {
            let seg = path.substring_char(start, i);
            let keep = starts_with_str(seg, "channel-");
            proof {
                let t = s.subrange(0, i as int);
                lemma_last_slash_bounds(t);
                assert(last_slash(t) == start - 1);
                assert(t.subrange(last_slash(t) + 1, t.len() as int) =~= seg@);
                if start > 0 {
                    assert(t.subrange(0, last_slash(t)) =~= s.subrange(0, start - 1));
                }
            }
            let ghost before = out.deep_view();
            if keep {
                out.push(String::from_str(seg));
                assert(out.deep_view() =~= before + seq![seg@]);
            } else {
                assert(out.deep_view() =~= before + Seq::<Seq<char>>::empty());
            }
            start = i + 1;
            assert(s.subrange(0, start - 1) =~= s.subrange(0, i as int));
        }
        i = i + 1;
    }
    let ghost s = path@;
    let seg = path.substring_char(start, n);
    let keep = starts_with_str(seg, "channel-");
    proof {
        assert(s.subrange(0, n as int) =~= s);
        lemma_last_slash_bounds(s);
        assert(s.subrange(last_slash(s) + 1, s.len() as int) =~= seg@);
    }
    let ghost before = out.deep_view();
    if keep {
        out.push(String::from_str(seg));
        assert(out.deep_view() =~= before + seq![seg@]);
    } else {
        assert(out.deep_view() =~= before + Seq::<Seq<char>>::empty());
    }
    out
}

/// Resolves the route of an asset observed on `current_chain_id` whose
/// transfer history is `hop_path`. Hops are matched newest first, walking
/// back through the configured links; a hop without a matching link is
/// passed over and counted in `unresolved_hops`.
pub fn resolve_route(graph: &RouteGraph, hop_path: &str, current_chain_id: &String, origin: &String) -> (r: RouteResolution)
    ensures
        r.route.deep_view() == route_of(*graph, hop_path@, current_chain_id@, origin@),
        r.unresolved_hops == unresolved_of(*graph, hop_path@, current_chain_id@),
{
    let hops = hop_channels_of(hop_path);
    let ghost links = graph.links@;
    let ghost all = hops.deep_view();
    let ghost cur0 = current_chain_id@;
    let mut trail: Vec<String> = Vec::new();
    trail.push(current_chain_id.clone());
    let mut cursor = current_chain_id.clone();
    let mut unresolved: usize = 0;
    let total: usize = hops.len();
    let mut i: usize = total;
    assert(all.len() == hops@.len());
    assert(all.subrange(0, i as int) =~= all);
    while i > 0
        invariant
            0 <= i <= hops@.len(),
            all == hops.deep_view(),
            links == graph.links@,
            trail@.len() >= 1,
            trail.deep_view().last() == cursor@,
            trail.deep_view() + walk(links, cursor@, all.subrange(0, i as int))
                == visited(links, cur0, all),
            unresolved + trail@.len() - 1 + i == all.len(),
            all.len() == hops@.len(),
            total == hops@.len(),
        decreases i,
    {
        let ghost rest = all.subrange(0, i as int);
        assert(rest.drop_last() =~= all.subrange(0, i - 1));
        assert(rest.last() == hops[i - 1]@);
        let ghost before = trail.deep_view();
        match graph.find_predecessor(&cursor, &hops[i - 1]) {
            Some(p) => {
                trail.push(p.clone());
                assert(trail.deep_view() =~= before + seq![p@]);
                assert(before + seq![p@] + walk(links, p@, all.subrange(0, i - 1))
                    =~= before + (seq![p@] + walk(links, p@, all.subrange(0, i - 1))));
                cursor = p;
            },
            None => {
                assert(unresolved < all.len());
                unresolved = unresolved + 1;
            },
        }
        i = i - 1;
    }
    assert(all.subrange(0, 0) =~= Seq::<Seq<char>>::empty());
    let ghost v = trail.deep_view();
    assert(v == visited(links, cur0, all));
    let last_label = graph.chain_label(&trail[trail.len() - 1]);
    let mut route: Vec<String> = Vec::new();
    let starts_at_origin = last_label == *origin;
    if !starts_at_origin {
        route.push(origin.clone());
    }
    let ghost head = route.deep_view();
    let mut j: usize = trail.len();
    while j > 0
        invariant
            0 <= j <= trail@.len(),
            v == trail.deep_view(),
            route.deep_view() == head + labels_reversed(*graph, v).subrange(0, v.len() - j),
        decreases j,
    {
        j = j - 1;
        let l = graph.chain_label(&trail[j]);
        let ghost before = route.deep_view();
        route.push(l);
        assert(route.deep_view() =~= before + seq![l@]);
        assert(labels_reversed(*graph, v).subrange(0, v.len() - j)
            =~= labels_reversed(*graph, v).subrange(0, v.len() - j - 1) + seq![l@]);
    }
    assert(labels_reversed(*graph, v).subrange(0, v.len() as int) =~= labels_reversed(*graph, v));
    proof {
        if starts_at_origin {
            assert(head =~= Seq::<Seq<char>>::empty());
            assert(route.deep_view() =~= labels_reversed(*graph, v));
        }
    }
    RouteResolution { route, unresolved_hops: unresolved }
}

/// A hop path with no channel segment resolves to its origin followed by
/// the chain holding the asset, given once when the two coincide, and
/// nothing is left unresolved.
pub proof fn lemma_route_without_hops(g: RouteGraph, path: Seq<char>, cur: Seq<char>, origin: Seq<char>)
    requires
        hop_channels(path).len() == 0,
    ensures
        route_of(g, path, cur, origin) == if label(g.chains@, cur) == origin {
            seq![origin]
        } else {
            seq![origin, label(g.chains@, cur)]
        },
        unresolved_of(g, path, cur) == 0,
{
    let v = visited(g.links@, cur, hop_channels(path));
    assert(v =~= seq![cur]);
    assert(labels_reversed(g, v) =~= seq![label(g.chains@, cur)]);
    if label(g.chains@, cur) != origin {
        assert(seq![origin] + labels_reversed(g, v) =~= seq![origin, label(g.chains@, cur)]);
    }
}

proof fn lemma_no_link_no_predecessor(links: Seq<ChannelLink>, cur: Seq<char>, ch: Seq<char>, i: int)
    requires
        forall|k: int| 0 <= k < links.len() ==> links[k].channel_id@ != ch,
    ensures
        predecessor_from(links, cur, ch, i) is None,
    decreases links.len() - i,
{
    if 0 <= i < links.len() {
        lemma_no_link_no_predecessor(links, cur, ch, i + 1);
    }
}

proof fn lemma_walk_len(links: Seq<ChannelLink>, cur: Seq<char>, hops: Seq<Seq<char>>)
    ensures
        walk(links, cur, hops).len() <= hops.len(),
    decreases hops.len(),
{
    if hops.len() > 0 {
        match predecessor(links, cur, hops.last()) {
            Some(p) => lemma_walk_len(links, p, hops.drop_last()),
            None => lemma_walk_len(links, cur, hops.drop_last()),
        }
    }
}

proof fn lemma_walk_short(links: Seq<ChannelLink>, cur: Seq<char>, hops: Seq<Seq<char>>, j: int)
    requires
        0 <= j < hops.len(),
        forall|k: int| 0 <= k < links.len() ==> links[k].channel_id@ != hops[j],
    ensures
        walk(links, cur, hops).len() < hops.len(),
    decreases hops.len(),
{
    if j == hops.len() - 1 {
        lemma_no_link_no_predecessor(links, cur, hops[j], 0);
        lemma_walk_len(links, cur, hops.drop_last());
    } else {
        assert(hops.drop_last()[j] == hops[j]);
        match predecessor(links, cur, hops.last()) {
            Some(p) => lemma_walk_short(links, p, hops.drop_last(), j),
            None => lemma_walk_short(links, cur, hops.drop_last(), j),
        }
    }
}

/// A hop over a channel that no configured link carries leaves the route
/// marked incomplete, and the route still holds at least the origin.
pub proof fn lemma_unmatched_hop_reported(g: RouteGraph, path: Seq<char>, cur: Seq<char>, origin: Seq<char>, j: int)
    requires
        0 <= j < hop_channels(path).len(),
        forall|k: int| 0 <= k < g.links@.len() ==> g.links@[k].channel_id@ != hop_channels(path)[j],
    ensures
        unresolved_of(g, path, cur) > 0,
        route_of(g, path, cur, origin).len() >= 1,
        route_of(g, path, cur, origin)[0] == origin,
{
    lemma_walk_short(g.links@, cur, hop_channels(path), j);
}

/// Every route starts at the origin and ends with the chain holding the asset.
pub proof fn lemma_route_ends(g: RouteGraph, path: Seq<char>, cur: Seq<char>, origin: Seq<char>)
    ensures
        route_of(g, path, cur, origin).len() >= 1,
        route_of(g, path, cur, origin)[0] == origin,
        route_of(g, path, cur, origin).last() == label(g.chains@, cur),
{
}

proof fn lemma_predecessor_is_source(links: Seq<ChannelLink>, cur: Seq<char>, ch: Seq<char>, i: int)
    requires
        predecessor_from(links, cur, ch, i) is Some,
    ensures
        exists|k: int| 0 <= k < links.len() && links[k].from_chain_id@ == predecessor_from(links, cur, ch, i).unwrap(),
    decreases links.len() - i,
{
    if 0 <= i < links.len() && !(links[i].to_chain_id@ == cur && links[i].channel_id@ == ch) {
        lemma_predecessor_is_source(links, cur, ch, i + 1);
    }
}

proof fn lemma_walk_sources(links: Seq<ChannelLink>, cur: Seq<char>, hops: Seq<Seq<char>>)
    ensures
        forall|j: int| 0 <= j < walk(links, cur, hops).len() ==>
            exists|k: int| 0 <= k < links.len() && links[k].from_chain_id@ == #[trigger] walk(links, cur, hops)[j],
    decreases hops.len(),
{
    if hops.len() > 0 {
        match predecessor(links, cur, hops.last()) {
            Some(p) => {
                lemma_predecessor_is_source(links, cur, hops.last(), 0);
                lemma_walk_sources(links, p, hops.drop_last());
                let w = walk(links, cur, hops);
                assert(w == seq![p] + walk(links, p, hops.drop_last()));
                assert forall|j: int| 0 <= j < w.len() implies
                    exists|k: int| 0 <= k < links.len() && links[k].from_chain_id@ == #[trigger] w[j] by {
                    if j == 0 {
                        assert(w[0] == p);
                        assert(predecessor_from(links, cur, hops.last(), 0).unwrap() == p);
                    } else {
                        assert(w[j] == walk(links, p, hops.drop_last())[j - 1]);
                    }
                }
            },
            None => {
                lemma_walk_sources(links, cur, hops.drop_last());
                assert(walk(links, cur, hops) == walk(links, cur, hops.drop_last()));
            },
        }
    }
}

/// In a graph whose links join configured chains, every element of a route
/// after the origin is the key of a configured chain, provided the chain
/// holding the asset is configured.
pub proof fn lemma_route_labels_configured(g: RouteGraph, path: Seq<char>, cur: Seq<char>, origin: Seq<char>)
    requires
        links_configured(g.chains@, g.links@),
        key_of(g.chains@, cur) is Some,
    ensures
        forall|i: int| 1 <= i < route_of(g, path, cur, origin).len() ==>
            exists|id: Seq<char>| key_of(g.chains@, id) == Some(#[trigger] route_of(g, path, cur, origin)[i]),
{
    let hops = hop_channels(path);
    let v = visited(g.links@, cur, hops);
    let fwd = labels_reversed(g, v);
    lemma_walk_sources(g.links@, cur, hops);
    assert forall|j: int| 0 <= j < fwd.len() implies
        exists|id: Seq<char>| key_of(g.chains@, id) == Some(#[trigger] fwd[j]) by {
        let id = v[v.len() - 1 - j];
        if v.len() - 1 - j > 0 {
            let w = walk(g.links@, cur, hops);
            assert(id == w[v.len() - 2 - j]);
            let k = choose|k: int| 0 <= k < g.links@.len() && g.links@[k].from_chain_id@ == w[v.len() - 2 - j];
            assert(key_of(g.chains@, g.links@[k].from_chain_id@) is Some);
        }
        assert(key_of(g.chains@, id) == Some(fwd[j]));
    }
    let r = route_of(g, path, cur, origin);
    assert forall|i: int| 1 <= i < r.len() implies
        exists|id: Seq<char>| key_of(g.chains@, id) == Some(#[trigger] r[i]) by {
        if fwd[0] == origin {
            assert(r[i] == fwd[i]);
        } else {
            assert(r[i] == fwd[i - 1]);
        }
    }
}

/// A hop over a channel that no configured link carries records nothing:
/// the chains walked are those of the same hops without it.
pub proof fn lemma_unmatched_hop_skipped(links: Seq<ChannelLink>, cur: Seq<char>, hops: Seq<Seq<char>>, j: int)
    requires
        0 <= j < hops.len(),
        forall|k: int| 0 <= k < links.len() ==> links[k].channel_id@ != hops[j],
    ensures
        walk(links, cur, hops) == walk(links, cur, hops.remove(j)),
    decreases hops.len(),
{
    if j == hops.len() - 1 {
        lemma_no_link_no_predecessor(links, cur, hops[j], 0);
        assert(hops.remove(j) =~= hops.drop_last());
    } else {
        let h2 = hops.remove(j);
        assert(h2.last() == hops.last());
        assert(h2.drop_last() =~= hops.drop_last().remove(j));
        assert(hops.drop_last()[j] == hops[j]);
        match predecessor(links, cur, hops.last()) {
            Some(p) => lemma_unmatched_hop_skipped(links, p, hops.drop_last(), j),
            None => lemma_unmatched_hop_skipped(links, cur, hops.drop_last(), j),
        }
    }
}

} // verus!
