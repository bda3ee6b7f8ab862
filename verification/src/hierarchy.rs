//! The hierarchy: the base graph and the levels above it, and the way
//! back from an edge of any level to the edges of the base graph that it
//! stands for.

use vstd::prelude::*;
use crate::contraction::ContractionFactor;
use crate::direction::EdgeDirection;
use crate::graph::DirectedNetworkGraph;
use crate::ids::{EdgeId, NodeId};
use crate::layer::{
    calculate_layer, data_complete, layer_of, layer_ok, level_is_empty, level_is_unwritable,
    preimage, preimages_inside, record_sound, LayerError,
};
use crate::node_data::{IntermediateData, NetworkData};
use crate::paths::{connects, is_walk, lemma_walk_concat, walk_end, walk_weight};
use crate::provenance::as_records;
use crate::shortcut::ShortcutState;

verus! {

/// The options of a build.
#[derive(Debug, Clone, Copy, PartialEq, Eq, Structural)]
pub struct BuildConfiguration {
    /// Number of nodes that make up a neighbourhood, at least two.
    pub neighborhood_size: u32,
    /// The threshold of the contraction, at least one.
    pub contraction_factor: ContractionFactor,
    /// Number of levels to build above the base, at least one.
    pub levels: u8,
}

impl BuildConfiguration {
    /// Whether the options are in their ranges.
    pub open spec fn wf(self) -> bool {
        self.neighborhood_size >= 2 && self.contraction_factor.wf() && self.levels >= 1
    }

    /// The options, if they are in their ranges.
    pub fn new(neighborhood_size: u32, contraction_factor: ContractionFactor, levels: u8) -> (r:
        Option<Self>)
        ensures
            r is Some <==> neighborhood_size >= 2 && contraction_factor.wf() && levels >= 1,
            r is Some ==> r->0 == (BuildConfiguration {
                neighborhood_size,
                contraction_factor,
                levels,
            }),
    {
        if neighborhood_size < 2 || contraction_factor.denominator == 0
            || contraction_factor.numerator < contraction_factor.denominator || levels < 1 {
            None
        } else {
            Some(BuildConfiguration { neighborhood_size, contraction_factor, levels })
        }
    }
}

/// The base graph and the levels built above it, the lowest first.
#[derive(Debug, PartialEq, Eq)]
pub struct HighwayHierarchy<D> {
    pub base: DirectedNetworkGraph<D>,
    pub levels: Vec<DirectedNetworkGraph<IntermediateData>>,
}

/// Whether the store of `g` answers for every node and record of `g`.
pub open spec fn level_complete(g: &DirectedNetworkGraph<IntermediateData>) -> bool {
    &&& data_complete(g)
    &&& forall|v: NodeId| v.0 < g.node_total() ==> #[trigger] g.data.has_node(v)
}

impl<D: NetworkData> HighwayHierarchy<D> {
    /// Number of levels above the base.
    pub open spec fn depth(&self) -> int {
        self.levels@.len() as int
    }

    /// Every level is a well-formed graph whose store is complete, and
    /// every edge of a level expands to a walk of the same weight in the
    /// level below.
    pub open spec fn wf(&self) -> bool {
        &&& self.base.wf()
        &&& forall|i: int|
            0 <= i < self.depth() ==> (#[trigger] self.levels@[i]).wf() && level_complete(
                &self.levels@[i],
            )
        &&& self.depth() > 0 ==> layer_ok(&self.base, &self.levels@[0]) && preimages_inside(
            &self.base,
            &self.levels@[0],
        )
        &&& forall|i: int|
            1 <= i < self.depth() ==> layer_ok(&self.levels@[i - 1], #[trigger] &self.levels@[i])
                && preimages_inside(&self.levels@[i - 1], &self.levels@[i])
    }

    /// The edges of the base graph for which record `j` of level `level`
    /// stands, in order. Level zero is the base graph itself.
    pub open spec fn expand_record(&self, level: int, j: int) -> Seq<int>
        decreases level, 0int,
    {
        if level <= 0 {
            seq![j]
        } else {
            self.expand_chain(
                level - 1,
                as_records(self.levels@[level - 1].data.edge_view(EdgeId(j as u32)).chain()),
            )
        }
    }

    /// The edges of the base graph for which the records `chain` of level
    /// `level` stand, in order.
    pub open spec fn expand_chain(&self, level: int, chain: Seq<int>) -> Seq<int>
        decreases level, chain.len() + 1,
    {
        if chain.len() == 0 {
            Seq::empty()
        } else {
            self.expand_chain(level, chain.drop_last()) + self.expand_record(level, chain.last())
        }
    }

    /// The node of the base graph for which node `u` of level `level`
    /// stands.
    pub open spec fn base_node(&self, level: int, u: int) -> int
        decreases level,
    {
        if level <= 0 {
            u
        } else {
            self.base_node(level - 1, preimage(&self.levels@[level - 1], u).0 as int)
        }
    }

    /// Expansion soundness and weight conservation down to the base: a
    /// record of any level expands to a walk in the base graph between the
    /// base nodes for which its ends stand, which runs in the direction of
    /// the record and weighs what the record weighs.
    pub proof fn lemma_record_expands(&self, level: int, u: int, j: int)
        requires
            self.wf(),
            1 <= level <= self.depth(),
            self.levels@[level - 1].in_range(u, j),
        ensures
            ({
                let g = &self.levels@[level - 1];
                let walk = self.expand_record(level, j);
                let here = self.base_node(level, u);
                let there = self.base_node(level, g.edges@[j].target_node.0 as int);
                &&& walk_weight(&self.base, walk) == g.edges@[j].edge_weight
                &&& g.edges@[j].direction != EdgeDirection::Both
                &&& g.edges@[j].direction == EdgeDirection::Forward ==> connects(
                    &self.base,
                    EdgeDirection::Forward,
                    here,
                    there,
                    walk,
                )
                &&& g.edges@[j].direction == EdgeDirection::Backward ==> connects(
                    &self.base,
                    EdgeDirection::Forward,
                    there,
                    here,
                    walk,
                )
            }),
        decreases level, 0int,
    {
        let g = &self.levels@[level - 1];
        let chain = as_records(g.data.edge_view(EdgeId(j as u32)).chain());
        let near = preimage(g, u).0 as int;
        let far = preimage(g, g.edges@[j].target_node.0 as int).0 as int;
        let target = g.edges@[j].target_node.0 as int;
        assert(self.expand_record(level, j) == self.expand_chain(level - 1, chain));
        assert(self.base_node(level, u) == self.base_node(level - 1, near));
        assert(self.base_node(level, target) == self.base_node(level - 1, far));
        if level == 1 {
            assert(record_sound(&self.base, g, u, j));
            self.lemma_base_chain(chain);
            assert(self.base_node(0, near) == near);
            assert(self.base_node(0, far) == far);
        } else {
            let prev = &self.levels@[level - 2];
            assert(layer_ok(&self.levels@[level - 1 - 1], &self.levels@[level - 1]));
            assert(record_sound(prev, g, u, j));
            if g.edges@[j].direction == EdgeDirection::Forward {
                assert(connects(prev, EdgeDirection::Forward, near, far, chain));
                self.lemma_chain_expands(level - 1, near, chain);
            } else {
                assert(connects(prev, EdgeDirection::Forward, far, near, chain));
                self.lemma_chain_expands(level - 1, far, chain);
            }
        }
    }

    /// A chain of records of the base graph expands to itself.
    pub proof fn lemma_base_chain(&self, chain: Seq<int>)
        ensures
            self.expand_chain(0, chain) == chain,
        decreases chain.len(),
    {
        if chain.len() > 0 {
            self.lemma_base_chain(chain.drop_last());
            assert(self.expand_chain(0, chain) == self.expand_chain(0, chain.drop_last())
                + self.expand_record(0, chain.last()));
            assert(chain.drop_last() + seq![chain.last()] =~= chain);
        }
    }

    /// A walk in a level expands to a walk in the base graph between the
    /// base nodes for which its ends stand, of the same weight.
    pub proof fn lemma_chain_expands(&self, level: int, x: int, chain: Seq<int>)
        requires
            self.wf(),
            1 <= level <= self.depth(),
            is_walk(&self.levels@[level - 1], EdgeDirection::Forward, x, chain),
        ensures
            connects(
                &self.base,
                EdgeDirection::Forward,
                self.base_node(level, x),
                self.base_node(
                    level,
                    walk_end(&self.levels@[level - 1], x, chain),
                ),
                self.expand_chain(level, chain),
            ),
            walk_weight(&self.base, self.expand_chain(level, chain)) == walk_weight(
                &self.levels@[level - 1],
                chain,
            ),
        decreases level, chain.len() + 1,
    {
        let g = &self.levels@[level - 1];
        if chain.len() == 0 {
            self.lemma_base_node_inside(level, x);
            let empty = Seq::<int>::empty();
            assert(self.expand_chain(level, chain) =~= empty);
            assert(is_walk(&self.base, EdgeDirection::Forward, self.base_node(level, x), empty));
        } else {
            let head = chain.drop_last();
            let j = chain.last();
            let mid = walk_end(g, x, head);
            self.lemma_chain_expands(level, x, head);
            assert(g.arc(EdgeDirection::Forward, mid, j));
            assert(g.in_range(mid, j));
            self.lemma_record_expands(level, mid, j);
            lemma_walk_concat(
                &self.base,
                EdgeDirection::Forward,
                self.base_node(level, x),
                self.expand_chain(level, head),
                self.expand_record(level, j),
            );
        }
    }

    /// A node of a level stands for a node of the base graph.
    pub proof fn lemma_base_node_inside(&self, level: int, u: int)
        requires
            self.wf(),
            0 <= level <= self.depth(),
            0 <= u < (if level == 0 {
                self.base.node_total()
            } else {
                self.levels@[level - 1].node_total()
            }),
        ensures
            0 <= self.base_node(level, u) < self.base.node_total(),
        decreases level,
    {
        if level > 0 {
            let g = &self.levels@[level - 1];
            if level > 1 {
                assert(preimages_inside(&self.levels@[level - 1 - 1], &self.levels@[level - 1]));
            }
            self.lemma_base_node_inside(level - 1, preimage(g, u).0 as int);
        }
    }

}

/// Every record of a walk lies in the range of a node.
pub proof fn lemma_walk_records_owned<D>(
    g: &DirectedNetworkGraph<D>,
    dir: EdgeDirection,
    s: int,
    walk: Seq<int>,
    i: int,
)
    requires
        is_walk(g, dir, s, walk),
        0 <= i < walk.len(),
    ensures
        exists|u: int| #[trigger] g.in_range(u, walk[i]),
    decreases walk.len(),
{
    if i == walk.len() - 1 {
        let u = walk_end(g, s, walk.drop_last());
        assert(g.arc(dir, u, walk.last()));
        assert(g.in_range(u, walk[i]));
    } else {
        lemma_walk_records_owned(g, dir, s, walk.drop_last(), i);
        assert(walk.drop_last()[i] == walk[i]);
    }
}

/// The edge ids of `edges` as record indices.
pub open spec fn record_ids(edges: Seq<EdgeId>) -> Seq<int> {
    edges.map_values(|e: EdgeId| e.0 as int)
}

impl<D: NetworkData> HighwayHierarchy<D> {
    /// Whether `j` is a record of level `level`: an edge record of the
    /// base graph at level zero, a record in the range of a node of the
    /// level above it.
    pub open spec fn is_record(&self, level: int, j: int) -> bool {
        if level == 0 {
            0 <= j < self.base.edge_total()
        } else {
            1 <= level <= self.depth() && exists|u: int| #[trigger]
                self.levels@[level - 1].in_range(u, j)
        }
    }

    /// The chain of a record of a level above the base consists of
    /// records of the level below.
    proof fn lemma_chain_is_records(&self, level: int, j: int, i: int)
        requires
            self.wf(),
            1 <= level <= self.depth(),
            self.is_record(level, j),
            0 <= i < as_records(
                self.levels@[level - 1].data.edge_view(EdgeId(j as u32)).chain(),
            ).len(),
        ensures
            self.is_record(
                level - 1,
                as_records(self.levels@[level - 1].data.edge_view(EdgeId(j as u32)).chain())[i],
            ),
            0 <= j < self.levels@[level - 1].edge_total(),
    {
        let g = &self.levels@[level - 1];
        let chain = as_records(g.data.edge_view(EdgeId(j as u32)).chain());
        let u = choose|u: int| #[trigger] g.in_range(u, j);
        let near = preimage(g, u).0 as int;
        let far = preimage(g, g.edges@[j].target_node.0 as int).0 as int;
        if level > 1 {
            let prev = &self.levels@[level - 2];
            assert(layer_ok(&self.levels@[level - 1 - 1], &self.levels@[level - 1]));
            assert(record_sound(prev, g, u, j));
            if g.edges@[j].direction == EdgeDirection::Forward {
                lemma_walk_records_owned(prev, EdgeDirection::Forward, near, chain, i);
            } else {
                lemma_walk_records_owned(prev, EdgeDirection::Forward, far, chain, i);
            }
        } else {
            assert(layer_ok(&self.base, &self.levels@[0]));
            assert(record_sound(&self.base, g, u, j));
            if g.edges@[j].direction == EdgeDirection::Forward {
                lemma_walk_records_owned(&self.base, EdgeDirection::Forward, near, chain, i);
            } else {
                lemma_walk_records_owned(&self.base, EdgeDirection::Forward, far, chain, i);
            }
            let owner = choose|owner: int| #[trigger] self.base.in_range(owner, chain[i]);
            assert(self.base.nodes@[owner].last_edge_index <= self.base.edges@.len());
        }
    }

    /// Appends to `out` the edges of the base graph for which record `j`
    /// of level `level` stands.
    fn expand_into(&self, level: usize, j: u32, out: &mut Vec<EdgeId>)
        requires
            self.wf(),
            self.is_record(level as int, j as int),
        ensures
            record_ids(final(out)@) == record_ids(old(out)@) + self.expand_record(level as int, j as int),
        decreases level,
    {
        if level == 0 {
            out.push(EdgeId(j));
            proof {
                assert(record_ids(out@) =~= record_ids(old(out)@) + seq![j as int]);
            }
            return ;
        }
        let g = &self.levels[level - 1];
        proof {
            let u = choose|u: int| #[trigger] g.in_range(u, j as int);
            assert(g.data.has_edge(EdgeId(j)));
        }
        let data = g.data.edge_data(EdgeId(j));
        let ghost chain = as_records(g.data.edge_view(EdgeId(j)).chain());
        match data {
            ShortcutState::Single(a) => {
                proof {
                    assert(chain =~= seq![*a as int]);
                    self.lemma_chain_is_records(level as int, j as int, 0);
                    let empty = Seq::<int>::empty();
                    assert(chain.drop_last() =~= empty);
                    assert(self.expand_chain(level - 1, empty) =~= empty);
                    assert(self.expand_chain(level - 1, chain) =~= self.expand_record(
                        level - 1,
                        *a as int,
                    ));
                }
                self.expand_into(level - 1, *a, out);
            },
            ShortcutState::Shortcut(items) => {
                let mut i: usize = 0;
                proof {
                    assert(chain =~= as_records(items@));
                    assert(chain.subrange(0, 0) =~= Seq::<int>::empty());
                    assert(record_ids(out@) + Seq::<int>::empty() =~= record_ids(out@));
                }
                while i < items.len()
                    invariant
                        self.wf(),
                        1 <= level <= self.depth(),
                        self.is_record(level as int, j as int),
                        chain == as_records(
                            self.levels@[level - 1].data.edge_view(EdgeId(j)).chain(),
                        ),
                        chain == as_records(items@),
                        i <= items@.len(),
                        record_ids(out@) == record_ids(old(out)@) + self.expand_chain(
                            level - 1,
                            chain.subrange(0, i as int),
                        ),
                    decreases items@.len() - i,
                {
                    let a = items[i];
                    proof {
                        self.lemma_chain_is_records(level as int, j as int, i as int);
                        assert(chain[i as int] == a as int);
                        assert(chain.subrange(0, i + 1).drop_last() =~= chain.subrange(0, i as int));
                        assert(chain.subrange(0, i + 1).last() == a as int);
                    }
                    let ghost before = record_ids(out@);
                    self.expand_into(level - 1, a, out);
                    proof {
                        assert(record_ids(out@) =~= record_ids(old(out)@) + self.expand_chain(
                            level - 1,
                            chain.subrange(0, i + 1),
                        ));
                    }
                    i += 1;
                }
                proof {
                    assert(chain.subrange(0, i as int) =~= chain);
                }
            },
        }
    }

    /// The edges of the base graph for which the record `edge` of level
    /// `level` stands, in order. Level zero is the base graph itself, whose
    /// records stand for themselves.
    pub fn expand_edge(&self, level: usize, edge: EdgeId) -> (r: Vec<EdgeId>)
        requires
            self.wf(),
            self.is_record(level as int, edge.0 as int),
        ensures
            record_ids(r@) == self.expand_record(level as int, edge.0 as int),
    {
        let mut out: Vec<EdgeId> = Vec::new();
        self.expand_into(level, edge.0, &mut out);
        proof {
            assert(record_ids(Seq::<EdgeId>::empty()) + self.expand_record(
                level as int,
                edge.0 as int,
            ) =~= self.expand_record(level as int, edge.0 as int));
        }
        out
    }

    /// Decides whether `edge` is a record of level `level` that can be
    /// expanded.
    pub fn knows_record(&self, level: usize, edge: EdgeId) -> (r: bool)
        requires
            self.wf(),
            forall|i: int| 0 <= i < self.depth() ==> (#[trigger] self.levels@[i]).partitioned(),
        ensures
            r == self.is_record(level as int, edge.0 as int),
    {
        if level == 0 {
            return (edge.0 as usize) < self.base.edges.len();
        }
        if level > self.levels.len() {
            return false;
        }
        let g = &self.levels[level - 1];
        if (edge.0 as usize) < g.edges.len() {
            proof {
                crate::graph::lemma_record_has_owner(g, edge.0 as int);
            }
            true
        } else {
            false
        }
    }
}

/// Whether the levels of `h` were built one from the other with the
/// options `config`.
pub open spec fn built_with<D: NetworkData>(h: &HighwayHierarchy<D>, config: BuildConfiguration) -> bool {
    &&& h.depth() <= config.levels
    &&& h.depth() > 0 ==> layer_of(
        &h.base,
        config.neighborhood_size as int,
        config.contraction_factor,
        &h.levels@[0],
    )
    &&& forall|i: int|
        1 <= i < h.depth() ==> layer_of(
            &h.levels@[i - 1],
            config.neighborhood_size as int,
            config.contraction_factor,
            #[trigger] &h.levels@[i],
        )
    &&& forall|i: int| 0 <= i < h.depth() ==> (#[trigger] h.levels@[i]).partitioned() && h.levels@[i].sorted()
        && h.levels@[i].edge_total() > 0
}

/// Whether `h` has all the levels that `config` asks for, or ends where
/// the next level would be empty.
pub open spec fn stopped_when_empty<D: NetworkData>(
    h: &HighwayHierarchy<D>,
    config: BuildConfiguration,
) -> bool {
    h.depth() < config.levels ==> if h.depth() == 0 {
        level_is_empty(&h.base, config.neighborhood_size as int, config.contraction_factor)
    } else {
        level_is_empty(
            &h.levels@[h.depth() - 1],
            config.neighborhood_size as int,
            config.contraction_factor,
        )
    }
}

/// Whether the level above the top of `h` has a core that cannot be
/// written as a graph.
pub open spec fn top_is_unwritable<D: NetworkData>(
    h: &HighwayHierarchy<D>,
    config: BuildConfiguration,
) -> bool {
    if h.depth() == 0 {
        level_is_unwritable(&h.base, config.neighborhood_size as int, config.contraction_factor)
    } else {
        level_is_unwritable(
            &h.levels@[h.depth() - 1],
            config.neighborhood_size as int,
            config.contraction_factor,
        )
    }
}

/// Whether the build of a hierarchy above `base` can have failed: it has
/// built fewer levels than `config` asks for, and the next one has a core
/// that cannot be written as a graph.
pub open spec fn build_fails<D: NetworkData>(
    base: DirectedNetworkGraph<D>,
    config: BuildConfiguration,
) -> bool {
    exists|h: HighwayHierarchy<D>|
        h.base == base && h.wf() && built_with(&h, config) && h.depth() < config.levels
            && #[trigger] top_is_unwritable(&h, config)
}

/// The level above the level `below` of a hierarchy.
fn next_level(
    size: usize,
    below: &DirectedNetworkGraph<IntermediateData>,
    contraction_factor: ContractionFactor,
) -> (r: Result<DirectedNetworkGraph<IntermediateData>, LayerError>)
    requires
        below.wf(),
        data_complete(below),
        size >= 2,
    ensures
        r is Ok ==> {
            &&& layer_of(below, size as int, contraction_factor, &r->Ok_0)
            &&& layer_ok(below, &r->Ok_0)
            &&& r->Ok_0.wf()
            &&& r->Ok_0.partitioned()
            &&& r->Ok_0.sorted()
            &&& level_complete(&r->Ok_0)
            &&& preimages_inside(below, &r->Ok_0)
            &&& r->Ok_0.edge_total() > 0
        },
        r is Err ==> r->Err_0 != LayerError::InvalidInput,
        r is Err && r->Err_0 == LayerError::Empty ==> level_is_empty(
            below,
            size as int,
            contraction_factor,
        ),
        r is Err && r->Err_0 == LayerError::Inconsistent ==> level_is_unwritable(
            below,
            size as int,
            contraction_factor,
        ),
{
    calculate_layer(size, below, contraction_factor)
}

/// Builds the hierarchy above `base`: level after level is built from the
/// one below until the number of levels of `config` is reached or a level
/// comes out empty; the empty level is left out. Returns `InvalidInput`
/// if the options are out of range, the base graph is not well formed or
/// its store is incomplete, and `Inconsistent` if a level cannot be
/// written as a graph. The first level decides whether there is a
/// hierarchy at all: if its core cannot be written, the build fails, and
/// if its core is empty, the hierarchy has no level.
#[verifier::rlimit(40)]
pub fn build_hierarchy<D: NetworkData>(config: BuildConfiguration, base: DirectedNetworkGraph<D>) -> (r:
    Result<HighwayHierarchy<D>, LayerError>)
    ensures
        (r is Err && r->Err_0 == LayerError::InvalidInput) <==> !(config.wf() && base.wf()
            && data_complete(&base)),
        r is Err ==> r->Err_0 != LayerError::Empty,
        r is Ok ==> r->Ok_0.base == base && r->Ok_0.wf() && built_with(&r->Ok_0, config),
        r is Ok ==> stopped_when_empty(&r->Ok_0, config),
        r is Err && r->Err_0 == LayerError::Inconsistent ==> build_fails(base, config),
        config.wf() && base.wf() && data_complete(&base) ==> {
            &&& level_is_unwritable(
                &base,
                config.neighborhood_size as int,
                config.contraction_factor,
            ) ==> r is Err && r->Err_0 == LayerError::Inconsistent
            &&& level_is_empty(&base, config.neighborhood_size as int, config.contraction_factor)
                ==> r is Ok && r->Ok_0.depth() == 0
        },
{
    if config.neighborhood_size < 2 || config.levels < 1 || config.contraction_factor.denominator == 0
        || config.contraction_factor.numerator < config.contraction_factor.denominator {
        return Err(LayerError::InvalidInput);
    }
    let size = config.neighborhood_size as usize;
    let mut levels: Vec<DirectedNetworkGraph<IntermediateData>> = Vec::new();
    match calculate_layer(size, &base, config.contraction_factor) {
        Ok(first) => {
            levels.push(first);
        },
        Err(LayerError::Empty) => {
            return Ok(HighwayHierarchy { base, levels });
        },
        Err(e) => {
            proof {
                let h = HighwayHierarchy { base, levels };
                if e == LayerError::Inconsistent {
                    assert(h.depth() == 0);
                    assert(h.base == base && h.wf() && built_with(&h, config) && h.depth()
                        < config.levels && top_is_unwritable(&h, config));
                }
            }
            return Err(e);
        },
    }
    while levels.len() < config.levels as usize
        invariant_except_break
            true,
        invariant
            !level_is_unwritable(&base, size as int, config.contraction_factor),
            !level_is_empty(&base, size as int, config.contraction_factor),
            config.wf(),
            size == config.neighborhood_size,
            base.wf(),
            data_complete(&base),
            1 <= levels@.len() <= config.levels,
            forall|i: int|
                0 <= i < levels@.len() ==> (#[trigger] levels@[i]).wf() && level_complete(&levels@[i])
                    && levels@[i].partitioned() && levels@[i].sorted() && levels@[i].edge_total() > 0,
            layer_ok(&base, &levels@[0]),
            preimages_inside(&base, &levels@[0]),
            layer_of(&base, size as int, config.contraction_factor, &levels@[0]),
            forall|i: int|
                1 <= i < levels@.len() ==> layer_ok(&levels@[i - 1], #[trigger] &levels@[i])
                    && preimages_inside(&levels@[i - 1], &levels@[i]) && layer_of(
                    &levels@[i - 1],
                    size as int,
                    config.contraction_factor,
                    &levels@[i],
                ),
        ensures
            levels@.len() < config.levels ==> level_is_empty(
                &levels@[levels@.len() - 1],
                size as int,
                config.contraction_factor,
            ),
        decreases config.levels - levels@.len(),
    {
        let top = levels.len() - 1;
        let ghost before = levels@;
        let next = next_level(size, &levels[top], config.contraction_factor);
        match next {
            Ok(graph) => {
                levels.push(graph);
                proof {
                    assert forall|i: int| 0 <= i < levels@.len() implies (#[trigger] levels@[i]).wf()
                        && level_complete(&levels@[i]) && levels@[i].partitioned()
                        && levels@[i].sorted() && levels@[i].edge_total() > 0 by {
                        if i < before.len() {
                            assert(levels@[i] == before[i]);
                        }
                    }
                    assert forall|i: int| 1 <= i < levels@.len() implies layer_ok(
                        &levels@[i - 1],
                        #[trigger] &levels@[i],
                    ) && preimages_inside(&levels@[i - 1], &levels@[i]) && layer_of(
                        &levels@[i - 1],
                        size as int,
                        config.contraction_factor,
                        &levels@[i],
                    ) by {
                        assert(levels@[i - 1] == before[i - 1]);
                        if i < before.len() {
                            assert(levels@[i] == before[i]);
                        }
                    }
                    assert(levels@[0] == before[0]);
                }
            },
            Err(LayerError::Empty) => {
                break ;
            },
            Err(e) => {
                proof {
                    let h = HighwayHierarchy { base, levels };
                    if e == LayerError::Inconsistent {
                        assert(h.depth() == levels@.len());
                        assert(h.levels@[h.depth() - 1] == levels@[top as int]);
                        assert(h.base == base && h.wf() && built_with(&h, config) && h.depth()
                            < config.levels && top_is_unwritable(&h, config));
                    }
                }
                return Err(e);
            },
        }
    }
    Ok(HighwayHierarchy { base, levels })
}

} // verus!
