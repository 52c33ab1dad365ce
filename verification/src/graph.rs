//! The co-occurrence graph: a node for every word that is frequent enough,
//! and a link between two nodes whose words share a generation.

use vstd::prelude::*;
use crate::cache::{as_nats, WordMetadata};
use crate::model::{ascending, is_cache_of, total_count, word_info, WordInfo};
use crate::order::{lemma_word_lt_irreflexive, word_lt};
use crate::overlap::{count_shared, generations_with_both, lemma_shared_generations, shared};

verus! {

/// A node of the graph as a value: what the cache holds of its word, and
/// the fields that are kept for directed edges, which this graph has none
/// of.
pub struct NodeInfo {
    pub word: Seq<char>,
    pub count: nat,
    pub sentences: Seq<nat>,
    pub word_indices: Seq<nat>,
    pub children: Seq<Seq<char>>,
    pub parents: Seq<Seq<char>>,
    pub is_root: bool,
    pub is_end: bool,
}

/// A link of the graph as a value.
pub struct LinkInfo {
    pub source: Seq<char>,
    pub target: Seq<char>,
    pub weight: nat,
}

/// A graph as a value.
pub struct GraphInfo {
    pub nodes: Seq<NodeInfo>,
    pub links: Seq<LinkInfo>,
    pub total_words: nat,
    pub unique_words: nat,
}

/// A node of the graph: a word that is frequent enough, with what the cache
/// holds of it.
pub struct GraphNode {
    pub word: String,
    pub count: usize,
    pub sentences: Vec<usize>,
    pub word_indices: Vec<usize>,
    /// Kept for directed edges; always empty.
    pub children: Vec<String>,
    /// Kept for directed edges; always empty.
    pub parents: Vec<String>,
    /// Kept for directed edges; always false.
    pub is_root: bool,
    /// Kept for directed edges; always false.
    pub is_end: bool,
}

/// A link of the graph: two words that share a generation. Of the two, the
/// source is the one that stands first in the order of the words.
pub struct GraphLink {
    pub source: String,
    pub target: String,
    /// The number of generations that the two words share.
    pub weight: usize,
}

/// The graph of a batch.
pub struct GraphData {
    pub nodes: Vec<GraphNode>,
    pub links: Vec<GraphLink>,
    /// The sum of the counts of all cached words, frequent or not.
    pub total_words: u128,
    /// The number of cached words, frequent or not.
    pub unique_words: usize,
}

impl View for GraphNode {
    type V = NodeInfo;

    open spec fn view(&self) -> NodeInfo {
        NodeInfo {
            word: self.word@,
            count: self.count as nat,
            sentences: as_nats(self.sentences@),
            word_indices: as_nats(self.word_indices@),
            children: self.children.deep_view(),
            parents: self.parents.deep_view(),
            is_root: self.is_root,
            is_end: self.is_end,
        }
    }
}

impl DeepView for GraphNode {
    type V = NodeInfo;

    open spec fn deep_view(&self) -> NodeInfo {
        self@
    }
}

impl View for GraphLink {
    type V = LinkInfo;

    open spec fn view(&self) -> LinkInfo {
        LinkInfo { source: self.source@, target: self.target@, weight: self.weight as nat }
    }
}

impl DeepView for GraphLink {
    type V = LinkInfo;

    open spec fn deep_view(&self) -> LinkInfo {
        self@
    }
}

impl View for GraphData {
    type V = GraphInfo;

    open spec fn view(&self) -> GraphInfo {
        GraphInfo {
            nodes: self.nodes.deep_view(),
            links: self.links.deep_view(),
            total_words: self.total_words as nat,
            unique_words: self.unique_words as nat,
        }
    }
}

/// The node of a cached word.
pub open spec fn node_of(info: WordInfo) -> NodeInfo {
    NodeInfo {
        word: info.word,
        count: info.count,
        sentences: info.sentences,
        word_indices: info.word_indices,
        children: Seq::empty(),
        parents: Seq::empty(),
        is_root: false,
        is_end: false,
    }
}

/// The nodes of the graph: one for each entry that counts at least
/// `min_frequency` occurrences, in the order of the entries.
pub open spec fn nodes_of(entries: Seq<WordInfo>, min_frequency: nat) -> Seq<NodeInfo>
    decreases entries.len(),
{
    if entries.len() == 0 {
        Seq::empty()
    } else {
        let before = nodes_of(entries.drop_last(), min_frequency);
        if entries.last().count >= min_frequency {
            before.push(node_of(entries.last()))
        } else {
            before
        }
    }
}

/// Whether two nodes are linked: their words share a generation.
pub open spec fn are_linked(a: NodeInfo, b: NodeInfo) -> bool {
    shared(a.sentences, b.sentences) > 0
}

/// The link from `a` to `b`.
pub open spec fn link_between(a: NodeInfo, b: NodeInfo) -> LinkInfo {
    LinkInfo { source: a.word, target: b.word, weight: shared(a.sentences, b.sentences) }
}

/// The links from node `i` to the nodes after it and before `end`.
pub open spec fn links_from(nodes: Seq<NodeInfo>, i: int, end: int) -> Seq<LinkInfo>
    decreases end - i,
{
    if end <= i + 1 {
        Seq::empty()
    } else {
        let before = links_from(nodes, i, end - 1);
        if are_linked(nodes[i], nodes[end - 1]) {
            before.push(link_between(nodes[i], nodes[end - 1]))
        } else {
            before
        }
    }
}

/// The links from the nodes before `end` to the nodes after them.
pub open spec fn links_before(nodes: Seq<NodeInfo>, end: int) -> Seq<LinkInfo>
    decreases end,
{
    if end <= 0 {
        Seq::empty()
    } else {
        links_before(nodes, end - 1) + links_from(nodes, end - 1, nodes.len() as int)
    }
}

/// The links of the graph: for every two nodes that are linked, the link
/// from the one that stands first to the other.
pub open spec fn links_of(nodes: Seq<NodeInfo>) -> Seq<LinkInfo> {
    links_before(nodes, nodes.len() as int)
}

/// The graph of a cache: the nodes and links of the words that count at
/// least `min_frequency` occurrences, and the totals of the whole cache.
pub open spec fn graph_of(entries: Seq<WordInfo>, min_frequency: nat) -> GraphInfo {
    GraphInfo {
        nodes: nodes_of(entries, min_frequency),
        links: links_of(nodes_of(entries, min_frequency)),
        total_words: total_count(entries),
        unique_words: entries.len(),
    }
}

/// The node of an entry of the cache.
pub fn make_node(entry: &WordMetadata) -> (node: GraphNode)
    ensures
        node@ == node_of(entry@),
{
    let node = GraphNode {
        word: entry.word.clone(),
        count: entry.count,
        sentences: entry.sentences.clone(),
        word_indices: entry.word_indices.clone(),
        children: Vec::new(),
        parents: Vec::new(),
        is_root: false,
        is_end: false,
    };
    assert(node.sentences@ =~= entry.sentences@);
    assert(node.word_indices@ =~= entry.word_indices@);
    assert(node.children.deep_view() =~= Seq::<Seq<char>>::empty());
    assert(node.parents.deep_view() =~= Seq::<Seq<char>>::empty());
    node
}

/// The nodes of the entries that count at least `min_frequency`
/// occurrences.
pub fn build_nodes(cache: &Vec<WordMetadata>, min_frequency: u32) -> (nodes: Vec<GraphNode>)
    ensures
        nodes.deep_view() == nodes_of(cache.deep_view(), min_frequency as nat),
{
    let mut nodes: Vec<GraphNode> = Vec::new();
    let mut k: usize = 0;
    assert(cache.deep_view().take(0) =~= Seq::<WordInfo>::empty());
    while k < cache.len()
        invariant
            k <= cache.len(),
            nodes.deep_view() == nodes_of(cache.deep_view().take(k as int), min_frequency as nat),
        decreases cache.len() - k,
    {
        let ghost built = nodes.deep_view();
        proof {
            assert(cache.deep_view().take(k + 1).drop_last() =~= cache.deep_view().take(k as int));
            assert(cache.deep_view().take(k + 1).last() == cache[k as int]@);
        }
        if cache[k].count >= min_frequency as usize {
            let node = make_node(&cache[k]);
            nodes.push(node);
            assert(nodes.deep_view() =~= built.push(node@));
        }
        k = k + 1;
    }
    assert(cache.deep_view().take(k as int) =~= cache.deep_view());
    nodes
}

/// The links between the nodes: every two nodes are looked at once, the
/// one that stands first as the source. The work grows with the square of
/// the number of nodes.
pub fn build_links(nodes: &Vec<GraphNode>) -> (links: Vec<GraphLink>)
    requires
        forall|k: int| 0 <= k < nodes.len() ==> ascending((#[trigger] nodes[k])@.sentences),
    ensures
        links.deep_view() == links_of(nodes.deep_view()),
{
    let ghost all = nodes.deep_view();
    let mut links: Vec<GraphLink> = Vec::new();
    let mut i: usize = 0;
    while i < nodes.len()
        invariant
            i <= nodes.len(),
            all == nodes.deep_view(),
            forall|k: int| 0 <= k < nodes.len() ==> ascending((#[trigger] nodes[k])@.sentences),
            links.deep_view() == links_before(all, i as int),
        decreases nodes.len() - i,
    {
        let ghost done = links.deep_view();
        let mut j: usize = i + 1;
        assert(links.deep_view() =~= done + links_from(all, i as int, j as int));
        while j < nodes.len()
            invariant
                i < j <= nodes.len(),
                all == nodes.deep_view(),
                forall|k: int| 0 <= k < nodes.len() ==> ascending((#[trigger] nodes[k])@.sentences),
                links.deep_view() == done + links_from(all, i as int, j as int),
            decreases nodes.len() - j,
        {
            let ghost found = links.deep_view();
            assert(ascending(nodes[i as int]@.sentences));
            assert(ascending(nodes[j as int]@.sentences));
            let weight = count_shared(&nodes[i].sentences, &nodes[j].sentences);
            if weight > 0 {
                let link = GraphLink {
                    source: nodes[i].word.clone(),
                    target: nodes[j].word.clone(),
                    weight,
                };
                assert(link@ == link_between(all[i as int], all[j as int]));
                links.push(link);
                assert(links.deep_view() =~= found.push(link@));
                assert(found.push(link@) =~= done + links_from(all, i as int, j + 1));
            }
            j = j + 1;
        }
        i = i + 1;
    }
    links
}

/// The sum of the counts of the cache. The sum of any number of counts
/// fits the result.
pub fn sum_counts(cache: &Vec<WordMetadata>) -> (total: u128)
    ensures
        total == total_count(cache.deep_view()),
{
    let mut total: u128 = 0;
    let mut k: usize = 0;
    assert(cache.deep_view().take(0) =~= Seq::<WordInfo>::empty());
    while k < cache.len()
        invariant
            k <= cache.len(),
            total == total_count(cache.deep_view().take(k as int)),
            total <= k * usize::MAX,
        decreases cache.len() - k,
    {
        proof {
            assert(cache.deep_view().take(k + 1).drop_last() =~= cache.deep_view().take(k as int));
            assert(cache.deep_view().take(k + 1).last() == cache[k as int]@);
            assert(k * usize::MAX + usize::MAX == (k + 1) * usize::MAX) by (nonlinear_arith);
            assert((k + 1) * usize::MAX <= usize::MAX * usize::MAX) by (nonlinear_arith)
                requires
                    k + 1 <= usize::MAX,
            ;
            assert(usize::MAX * usize::MAX <= u128::MAX) by (nonlinear_arith)
                requires
                    usize::MAX <= 0xffff_ffff_ffff_ffff,
            ;
        }
        total = total + cache[k].count as u128;
        k = k + 1;
    }
    assert(cache.deep_view().take(k as int) =~= cache.deep_view());
    total
}

/// Whether the nodes stand in ascending order of their words, so that no
/// two of them have the same word.
pub open spec fn nodes_ordered(nodes: Seq<NodeInfo>) -> bool {
    forall|i: int, j: int|
        0 <= i < j < nodes.len() ==> word_lt((#[trigger] nodes[i]).word, (#[trigger] nodes[j]).word)
}

/// Whether the link `x` stands before the link `y`: by their sources, and
/// for the same source by their targets.
pub open spec fn link_lt(x: LinkInfo, y: LinkInfo) -> bool {
    word_lt(x.source, y.source) || (x.source == y.source && word_lt(x.target, y.target))
}

/// Whether `link` joins the words `u` and `v`, in either direction.
pub open spec fn joins(link: LinkInfo, u: Seq<char>, v: Seq<char>) -> bool {
    (link.source == u && link.target == v) || (link.source == v && link.target == u)
}

/// Every node is the node of an entry that is frequent enough. Returns the
/// index of that entry.
pub proof fn lemma_node_entry(entries: Seq<WordInfo>, min_frequency: nat, k: int) -> (j: int)
    requires
        0 <= k < nodes_of(entries, min_frequency).len(),
    ensures
        0 <= j < entries.len(),
        entries[j].count >= min_frequency,
        nodes_of(entries, min_frequency)[k] == node_of(entries[j]),
    decreases entries.len(),
{
    let before = nodes_of(entries.drop_last(), min_frequency);
    if k < before.len() {
        lemma_node_entry(entries.drop_last(), min_frequency, k)
    } else {
        entries.len() - 1
    }
}

/// Every entry that is frequent enough has a node. Returns the index of
/// that node.
pub proof fn lemma_entry_node(entries: Seq<WordInfo>, min_frequency: nat, j: int) -> (k: int)
    requires
        0 <= j < entries.len(),
        entries[j].count >= min_frequency,
    ensures
        0 <= k < nodes_of(entries, min_frequency).len(),
        nodes_of(entries, min_frequency)[k] == node_of(entries[j]),
    decreases entries.len(),
{
    let before = nodes_of(entries.drop_last(), min_frequency);
    if j < entries.len() - 1 {
        lemma_entry_node(entries.drop_last(), min_frequency, j)
    } else {
        before.len() as int
    }
}

/// The nodes keep the order of the entries.
pub proof fn lemma_nodes_ordered(entries: Seq<WordInfo>, min_frequency: nat)
    requires
        forall|i: int, j: int|
            0 <= i < j < entries.len() ==> word_lt(
                (#[trigger] entries[i]).word,
                (#[trigger] entries[j]).word,
            ),
    ensures
        nodes_ordered(nodes_of(entries, min_frequency)),
    decreases entries.len(),
{
    if entries.len() > 0 {
        let front = entries.drop_last();
        assert forall|i: int, j: int| 0 <= i < j < front.len() implies word_lt(
            (#[trigger] front[i]).word,
            (#[trigger] front[j]).word,
        ) by {
            assert(front[i] == entries[i]);
            assert(front[j] == entries[j]);
        }
        lemma_nodes_ordered(front, min_frequency);
        let before = nodes_of(front, min_frequency);
        let nodes = nodes_of(entries, min_frequency);
        assert forall|i: int, j: int| 0 <= i < j < nodes.len() implies word_lt(
            (#[trigger] nodes[i]).word,
            (#[trigger] nodes[j]).word,
        ) by {
            assert(nodes[i] == before[i]);
            if j < before.len() {
                assert(nodes[j] == before[j]);
            } else {
                let e = lemma_node_entry(front, min_frequency, i);
                assert(front[e] == entries[e]);
                assert(entries.last() == entries[entries.len() - 1]);
            }
        }
    }
}

/// Where every entry is frequent enough, every entry has its node: so it
/// is for the frequency zero.
pub proof fn lemma_all_nodes(entries: Seq<WordInfo>, min_frequency: nat)
    requires
        forall|k: int| 0 <= k < entries.len() ==> (#[trigger] entries[k]).count >= min_frequency,
    ensures
        nodes_of(entries, min_frequency).len() == entries.len(),
        forall|k: int|
            0 <= k < entries.len() ==> (#[trigger] nodes_of(entries, min_frequency)[k]) == node_of(
                entries[k],
            ),
    decreases entries.len(),
{
    if entries.len() > 0 {
        let front = entries.drop_last();
        assert forall|k: int| 0 <= k < front.len() implies (#[trigger] front[k]).count
            >= min_frequency by {
            assert(front[k] == entries[k]);
        }
        lemma_all_nodes(front, min_frequency);
        assert(entries.last() == entries[entries.len() - 1]);
        let nodes = nodes_of(entries, min_frequency);
        assert forall|k: int| 0 <= k < entries.len() implies (#[trigger] nodes[k]) == node_of(
            entries[k],
        ) by {
            if k < front.len() {
                assert(nodes[k] == nodes_of(front, min_frequency)[k]);
                assert(front[k] == entries[k]);
            }
        }
    }
}

/// Where no entry is frequent enough, the graph has neither nodes nor
/// links, and its totals are those of the cache all the same.
pub proof fn lemma_no_nodes(entries: Seq<WordInfo>, min_frequency: nat)
    requires
        forall|k: int| 0 <= k < entries.len() ==> (#[trigger] entries[k]).count < min_frequency,
    ensures
        graph_of(entries, min_frequency).nodes == Seq::<NodeInfo>::empty(),
        graph_of(entries, min_frequency).links == Seq::<LinkInfo>::empty(),
        graph_of(entries, min_frequency).total_words == total_count(entries),
        graph_of(entries, min_frequency).unique_words == entries.len(),
    decreases entries.len(),
{
    if entries.len() > 0 {
        let front = entries.drop_last();
        assert forall|k: int| 0 <= k < front.len() implies (#[trigger] front[k]).count
            < min_frequency by {
            assert(front[k] == entries[k]);
        }
        lemma_no_nodes(front, min_frequency);
        assert(entries.last() == entries[entries.len() - 1]);
    }
    assert(nodes_of(entries, min_frequency) =~= Seq::<NodeInfo>::empty());
    assert(links_of(Seq::<NodeInfo>::empty()) =~= Seq::<LinkInfo>::empty());
}

/// Every link from node `i` joins it to a later node that shares a
/// generation with it. Returns the index of that node.
pub proof fn lemma_link_from_pair(nodes: Seq<NodeInfo>, i: int, end: int, l: int) -> (j: int)
    requires
        0 <= l < links_from(nodes, i, end).len(),
    ensures
        i < j < end,
        are_linked(nodes[i], nodes[j]),
        links_from(nodes, i, end)[l] == link_between(nodes[i], nodes[j]),
    decreases end - i,
{
    let before = links_from(nodes, i, end - 1);
    if l < before.len() {
        lemma_link_from_pair(nodes, i, end - 1, l)
    } else {
        end - 1
    }
}

/// Node `i` has a link to every later node that shares a generation with
/// it. Returns the index of that link.
pub proof fn lemma_pair_link_from(nodes: Seq<NodeInfo>, i: int, end: int, j: int) -> (l: int)
    requires
        i < j < end,
        are_linked(nodes[i], nodes[j]),
    ensures
        0 <= l < links_from(nodes, i, end).len(),
        links_from(nodes, i, end)[l] == link_between(nodes[i], nodes[j]),
    decreases end - i,
{
    let before = links_from(nodes, i, end - 1);
    if j < end - 1 {
        lemma_pair_link_from(nodes, i, end - 1, j)
    } else {
        before.len() as int
    }
}

/// Every link from a node before `end` joins two nodes that share a
/// generation, the first of them before `end`. Returns their indices.
pub proof fn lemma_link_before_pair(nodes: Seq<NodeInfo>, end: int, l: int) -> (pair: (int, int))
    requires
        0 <= l < links_before(nodes, end).len(),
    ensures
        0 <= pair.0 < end,
        pair.0 < pair.1 < nodes.len(),
        are_linked(nodes[pair.0], nodes[pair.1]),
        links_before(nodes, end)[l] == link_between(nodes[pair.0], nodes[pair.1]),
    decreases end,
{
    let before = links_before(nodes, end - 1);
    if l < before.len() {
        lemma_link_before_pair(nodes, end - 1, l)
    } else {
        let j = lemma_link_from_pair(nodes, end - 1, nodes.len() as int, l - before.len());
        (end - 1, j)
    }
}

/// Two nodes that share a generation have a link, from the first of them
/// to the second. Returns the index of that link.
pub proof fn lemma_pair_link_before(nodes: Seq<NodeInfo>, end: int, i: int, j: int) -> (l: int)
    requires
        0 <= i < end,
        i < j < nodes.len(),
        are_linked(nodes[i], nodes[j]),
    ensures
        0 <= l < links_before(nodes, end).len(),
        links_before(nodes, end)[l] == link_between(nodes[i], nodes[j]),
    decreases end,
{
    let before = links_before(nodes, end - 1);
    if i < end - 1 {
        lemma_pair_link_before(nodes, end - 1, i, j)
    } else {
        before.len() + lemma_pair_link_from(nodes, i, nodes.len() as int, j)
    }
}

/// The links from one node stand in the order of their targets.
pub proof fn lemma_links_from_ordered(nodes: Seq<NodeInfo>, i: int, end: int)
    requires
        nodes_ordered(nodes),
        0 <= i,
        end <= nodes.len(),
    ensures
        forall|l: int, m: int|
            0 <= l < m < links_from(nodes, i, end).len() ==> link_lt(
                #[trigger] links_from(nodes, i, end)[l],
                #[trigger] links_from(nodes, i, end)[m],
            ),
    decreases end - i,
{
    if end > i + 1 {
        lemma_links_from_ordered(nodes, i, end - 1);
        let before = links_from(nodes, i, end - 1);
        let links = links_from(nodes, i, end);
        assert forall|l: int, m: int| 0 <= l < m < links.len() implies link_lt(
            #[trigger] links[l],
            #[trigger] links[m],
        ) by {
            assert(links[l] == before[l]);
            if m < before.len() {
                assert(links[m] == before[m]);
            } else {
                let j = lemma_link_from_pair(nodes, i, end - 1, l);
            }
        }
    }
}

/// The links from the nodes before `end` stand in the order of their
/// sources, and for the same source in the order of their targets.
pub proof fn lemma_links_before_ordered(nodes: Seq<NodeInfo>, end: int)
    requires
        nodes_ordered(nodes),
        end <= nodes.len(),
    ensures
        forall|l: int, m: int|
            0 <= l < m < links_before(nodes, end).len() ==> link_lt(
                #[trigger] links_before(nodes, end)[l],
                #[trigger] links_before(nodes, end)[m],
            ),
    decreases end,
{
    if end > 0 {
        lemma_links_before_ordered(nodes, end - 1);
        lemma_links_from_ordered(nodes, end - 1, nodes.len() as int);
        let before = links_before(nodes, end - 1);
        let last = links_from(nodes, end - 1, nodes.len() as int);
        let links = links_before(nodes, end);
        assert forall|l: int, m: int| 0 <= l < m < links.len() implies link_lt(
            #[trigger] links[l],
            #[trigger] links[m],
        ) by {
            if m < before.len() {
                assert(links[l] == before[l]);
                assert(links[m] == before[m]);
            } else if l >= before.len() {
                assert(links[l] == last[l - before.len()]);
                assert(links[m] == last[m - before.len()]);
            } else {
                assert(links[l] == before[l]);
                assert(links[m] == last[m - before.len()]);
                let from = lemma_link_before_pair(nodes, end - 1, l);
                let j = lemma_link_from_pair(nodes, end - 1, nodes.len() as int, m - before.len());
            }
        }
    }
}

/// The links of nodes in ascending order: each has the smaller word as its
/// source, and they stand in ascending order themselves, so that no two of
/// them join the same words.
pub proof fn lemma_links_ordered(nodes: Seq<NodeInfo>)
    requires
        nodes_ordered(nodes),
    ensures
        forall|l: int|
            0 <= l < links_of(nodes).len() ==> word_lt(
                (#[trigger] links_of(nodes)[l]).source,
                links_of(nodes)[l].target,
            ),
        forall|l: int, m: int|
            0 <= l < m < links_of(nodes).len() ==> link_lt(
                #[trigger] links_of(nodes)[l],
                #[trigger] links_of(nodes)[m],
            ),
{
    lemma_links_before_ordered(nodes, nodes.len() as int);
    assert forall|l: int| 0 <= l < links_of(nodes).len() implies word_lt(
        (#[trigger] links_of(nodes)[l]).source,
        links_of(nodes)[l].target,
    ) by {
        let pair = lemma_link_before_pair(nodes, nodes.len() as int, l);
    }
}

/// In ascending order no word has two nodes.
proof fn lemma_same_word_same_node(nodes: Seq<NodeInfo>, i: int, j: int)
    requires
        nodes_ordered(nodes),
        0 <= i < nodes.len(),
        0 <= j < nodes.len(),
    ensures
        nodes[i].word == nodes[j].word ==> i == j,
{
    lemma_word_lt_irreflexive(nodes[i].word);
    if i < j {
        assert(word_lt(nodes[i].word, nodes[j].word));
    } else if j < i {
        assert(word_lt(nodes[j].word, nodes[i].word));
    }
}

/// Two nodes that share a generation have exactly one link, whose weight is
/// the number of generations that they share; two nodes that share none
/// have no link.
pub proof fn lemma_one_link_per_pair(nodes: Seq<NodeInfo>, i: int, j: int)
    requires
        nodes_ordered(nodes),
        0 <= i < j < nodes.len(),
    ensures
        are_linked(nodes[i], nodes[j]) ==> exists|l: int|
            0 <= l < links_of(nodes).len() && #[trigger] links_of(nodes)[l] == link_between(
                nodes[i],
                nodes[j],
            ) && forall|m: int|
                0 <= m < links_of(nodes).len() && m != l ==> !joins(
                    #[trigger] links_of(nodes)[m],
                    nodes[i].word,
                    nodes[j].word,
                ),
        !are_linked(nodes[i], nodes[j]) ==> forall|m: int|
            0 <= m < links_of(nodes).len() ==> !joins(
                #[trigger] links_of(nodes)[m],
                nodes[i].word,
                nodes[j].word,
            ),
{
    let links = links_of(nodes);
    let u = nodes[i].word;
    let v = nodes[j].word;
    lemma_links_ordered(nodes);
    // a link that joins the two words is the link between the two nodes
    assert forall|m: int| 0 <= m < links.len() && joins(#[trigger] links[m], u, v) implies links[m]
        == link_between(nodes[i], nodes[j]) && are_linked(nodes[i], nodes[j]) by {
        let pair = lemma_link_before_pair(nodes, nodes.len() as int, m);
        lemma_same_word_same_node(nodes, pair.0, i);
        lemma_same_word_same_node(nodes, pair.0, j);
        lemma_same_word_same_node(nodes, pair.1, i);
        lemma_same_word_same_node(nodes, pair.1, j);
    }
    if are_linked(nodes[i], nodes[j]) {
        let l = lemma_pair_link_before(nodes, nodes.len() as int, i, j);
        assert forall|m: int| 0 <= m < links.len() && m != l implies !joins(
            #[trigger] links[m],
            u,
            v,
        ) by {
            if joins(links[m], u, v) {
                lemma_word_lt_irreflexive(links[m].source);
                lemma_word_lt_irreflexive(links[m].target);
                if m < l {
                    assert(link_lt(links[m], links[l]));
                } else {
                    assert(link_lt(links[l], links[m]));
                }
            }
        }
        assert(links_of(nodes)[l] == link_between(nodes[i], nodes[j]));
    }
}

/// The graph of the cache of a batch: its nodes stand in ascending order of
/// their words; every link joins two different words, the smaller one as
/// its source, and weighs the number of generations that hold both, which
/// is one at least; and the links stand in ascending order, so that no two
/// of them join the same words.
pub proof fn lemma_graph_of_batch(
    entries: Seq<WordInfo>,
    batch: Seq<Seq<Seq<char>>>,
    min_frequency: nat,
)
    requires
        is_cache_of(entries, batch),
    ensures
        nodes_ordered(graph_of(entries, min_frequency).nodes),
        forall|l: int|
            0 <= l < graph_of(entries, min_frequency).links.len() ==> {
                let link = #[trigger] graph_of(entries, min_frequency).links[l];
                &&& word_lt(link.source, link.target)
                &&& link.weight >= 1
                &&& link.weight == generations_with_both(batch, link.source, link.target).len()
            },
        forall|l: int, m: int|
            0 <= l < m < graph_of(entries, min_frequency).links.len() ==> link_lt(
                #[trigger] graph_of(entries, min_frequency).links[l],
                #[trigger] graph_of(entries, min_frequency).links[m],
            ),
{
    let nodes = nodes_of(entries, min_frequency);
    let links = links_of(nodes);
    lemma_nodes_ordered(entries, min_frequency);
    lemma_links_ordered(nodes);
    assert forall|l: int| 0 <= l < links.len() implies {
        let link = #[trigger] links[l];
        &&& word_lt(link.source, link.target)
        &&& link.weight >= 1
        &&& link.weight == generations_with_both(batch, link.source, link.target).len()
    } by {
        let pair = lemma_link_before_pair(nodes, nodes.len() as int, l);
        let a = lemma_node_entry(entries, min_frequency, pair.0);
        let b = lemma_node_entry(entries, min_frequency, pair.1);
        assert(entries[a] == word_info(batch, entries[a].word));
        assert(entries[b] == word_info(batch, entries[b].word));
        lemma_shared_generations(batch, entries[a].word, entries[b].word);
    }
}

} // verus!
