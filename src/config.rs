//! Node configuration: per-node hardware description, held sorted by node
//! name.
use vstd::prelude::*;
use crate::text::{compare_str, seq_lt, lemma_seq_lt_transitive, lemma_seq_lt_irreflexive};

verus! {

/// Hardware description and resources of one compute node.
#[derive(Debug, Clone)]
pub struct NodeConfig {
    /// Node name.
    pub name: String,
    /// CPU ids tasks may use.
    pub available_cpus: Vec<u32>,
    /// Memory tasks may use, in MB; `u64::MAX` means unconstrained.
    pub max_memory_mb: u64,
    /// CPU architecture.
    pub architecture: String,
    /// Physical location.
    pub location: String,
    /// Free-form description.
    pub description: String,
}

fn cpu_list(ids: &[u32]) -> (r: Vec<u32>)
    ensures
        r@ == ids@,
{
    let mut v: Vec<u32> = Vec::new();
    let mut i: usize = 0;
    while i < ids.len()
        invariant
            i <= ids@.len(),
            v@ == ids@.take(i as int),
        decreases ids@.len() - i,
    {
        v.push(ids[i]);
        i = i + 1;
        proof {
            assert(v@ =~= ids@.take(i as int));
        }
    }
    proof {
        assert(v@ =~= ids@);
    }
    v
}

impl NodeConfig {
    /// The configuration used for a node when none is supplied: CPUs 0 to 3,
    /// 4096 MB, `aarch64`.
    pub fn default_config(name: &str) -> (r: NodeConfig)
        ensures
            r.name@ == name@,
            r.available_cpus@ == seq![0u32, 1, 2, 3],
            r.max_memory_mb == 4096,
            r.architecture@ == "aarch64"@,
            r.location@ == "default_location"@,
            r.description@ == "Default node configuration"@,
    {
        let cpus = cpu_list(&[0u32, 1, 2, 3]);
        proof {
            assert(cpus@ =~= seq![0u32, 1, 2, 3]);
        }
        NodeConfig {
            name: name.to_owned(),
            available_cpus: cpus,
            max_memory_mb: 4096,
            architecture: "aarch64".to_owned(),
            location: "default_location".to_owned(),
            description: "Default node configuration".to_owned(),
        }
    }

    /// Number of CPUs listed for the node.
    pub fn cpu_count(&self) -> (r: usize)
        ensures
            r == self.available_cpus@.len(),
    {
        self.available_cpus.len()
    }
}

/// Node names are strictly ascending, hence distinct.
pub open spec fn sorted_by_name(nodes: Seq<NodeConfig>) -> bool {
    forall|i: int, j: int| 0 <= i < j < nodes.len() ==> seq_lt(#[trigger] nodes[i].name@, #[trigger] nodes[j].name@)
}

/// The last entry of `entries` named `name`, if any.
pub open spec fn last_named(entries: Seq<NodeConfig>, name: Seq<char>) -> Option<NodeConfig>
    decreases entries.len(),
{
    if entries.len() == 0 {
        None
    } else if entries.last().name@ == name {
        Some(entries.last())
    } else {
        last_named(entries.drop_last(), name)
    }
}

/// The node of `nodes` named `name`, if any.
pub open spec fn named(nodes: Seq<NodeConfig>, name: Seq<char>) -> Option<NodeConfig> {
    if exists|i: int| 0 <= i < nodes.len() && #[trigger] nodes[i].name@ == name {
        Some(nodes[choose|i: int| 0 <= i < nodes.len() && #[trigger] nodes[i].name@ == name])
    } else {
        None
    }
}

proof fn lemma_named_at(nodes: Seq<NodeConfig>, i: int)
    requires
        sorted_by_name(nodes),
        0 <= i < nodes.len(),
    ensures
        named(nodes, nodes[i].name@) == Some(nodes[i]),
{
    let j = choose|j: int| 0 <= j < nodes.len() && #[trigger] nodes[j].name@ == nodes[i].name@;
    if j != i {
        lemma_seq_lt_irreflexive(nodes[i].name@);
    }
}

/// Where `name` is, or where it would go, in nodes sorted by name.
fn position(nodes: &Vec<NodeConfig>, name: &str) -> (r: Result<usize, usize>)
    requires
        sorted_by_name(nodes@),
    ensures
        r matches Ok(i) ==> i < nodes@.len() && nodes@[i as int].name@ == name@,
        r matches Err(i) ==> i <= nodes@.len()
            && (forall|k: int| 0 <= k < i ==> seq_lt(#[trigger] nodes@[k].name@, name@))
            && (forall|k: int| i <= k < nodes@.len() ==> seq_lt(name@, #[trigger] nodes@[k].name@)),
{
    let mut i: usize = 0;
    while i < nodes.len()
        invariant
            sorted_by_name(nodes@),
            i <= nodes@.len(),
            forall|k: int| 0 <= k < i ==> seq_lt(#[trigger] nodes@[k].name@, name@),
        decreases nodes@.len() - i,
    {
        let c = compare_str(nodes[i].name.as_str(), name);
        if c == 0 {
            return Ok(i);
        } else if c > 0 {
            proof {
                assert forall|k: int| i <= k < nodes@.len() implies seq_lt(name@, #[trigger] nodes@[k].name@) by {
                    if k > i {
                        lemma_seq_lt_transitive(name@, nodes@[i as int].name@, nodes@[k].name@);
                    }
                }
            }
            return Err(i);
        }
        i = i + 1;
    }
    Err(i)
}

/// Adds `cfg` to nodes sorted by name, replacing a node of the same name.
fn insert_node(nodes: &mut Vec<NodeConfig>, cfg: NodeConfig)
    requires
        sorted_by_name(old(nodes)@),
    ensures
        sorted_by_name(final(nodes)@),
        forall|k: Seq<char>| #[trigger] named(final(nodes)@, k) == if k == cfg.name@ {
            Some(cfg)
        } else {
            named(old(nodes)@, k)
        },
{
    let ghost before = nodes@;
    let ghost name = cfg.name@;
    match position(nodes, cfg.name.as_str()) {
        Ok(i) => {
            nodes[i] = cfg;
            proof {
                assert(nodes@ =~= before.update(i as int, cfg));
                assert forall|k: Seq<char>| #[trigger] named(nodes@, k) == if k == name {
                    Some(cfg)
                } else {
                    named(before, k)
                } by {
                    lemma_named_at(nodes@, i as int);
                    if exists|j: int| 0 <= j < before.len() && #[trigger] before[j].name@ == k {
                        let j = choose|j: int| 0 <= j < before.len() && #[trigger] before[j].name@ == k;
                        lemma_named_at(before, j);
                        lemma_named_at(nodes@, j);
                    }
                }
            }
        },
        Err(i) => {
            nodes.insert(i, cfg);
            proof {
                assert(nodes@ =~= before.insert(i as int, cfg));
                assert forall|a: int, b: int| 0 <= a < b < nodes@.len() implies seq_lt(
                    #[trigger] nodes@[a].name@,
                    #[trigger] nodes@[b].name@,
                ) by {
                    if b < i {
                    } else if b == i {
                    } else if a == i {
                    } else if a < i {
                        lemma_seq_lt_transitive(nodes@[a].name@, name, nodes@[b].name@);
                    } else {
                        assert(nodes@[a] == before[a - 1]);
                        assert(nodes@[b] == before[b - 1]);
                    }
                }
                assert forall|k: Seq<char>| #[trigger] named(nodes@, k) == if k == name {
                    Some(cfg)
                } else {
                    named(before, k)
                } by {
                    lemma_named_at(nodes@, i as int);
                    if exists|j: int| 0 <= j < before.len() && #[trigger] before[j].name@ == k {
                        let j = choose|j: int| 0 <= j < before.len() && #[trigger] before[j].name@ == k;
                        lemma_named_at(before, j);
                        if j < i {
                            lemma_named_at(nodes@, j);
                        } else {
                            lemma_named_at(nodes@, j + 1);
                        }
                    }
                    if exists|j: int| 0 <= j < nodes@.len() && #[trigger] nodes@[j].name@ == k {
                        let j = choose|j: int| 0 <= j < nodes@.len() && #[trigger] nodes@[j].name@ == k;
                        if j < i {
                            lemma_named_at(before, j);
                        } else if j > i {
                            lemma_named_at(before, j - 1);
                        }
                    }
                }
            }
        },
    }
}

/// Node configurations by name, and whether a configuration was loaded.
#[derive(Debug)]
pub struct NodeConfigManager {
    nodes: Vec<NodeConfig>,
    loaded: bool,
}

impl Default for NodeConfigManager {
    fn default() -> (r: NodeConfigManager)
        ensures
            r.nodes().len() == 0,
            !r.loaded(),
    {
        NodeConfigManager::new()
    }
}

impl NodeConfigManager {
    /// Node names are kept strictly ascending.
    #[verifier::type_invariant]
    spec fn inv(&self) -> bool {
        sorted_by_name(self.nodes@)
    }

    /// The loaded nodes, ascending by name.
    pub closed spec fn nodes(&self) -> Seq<NodeConfig> {
        self.nodes@
    }

    pub closed spec fn loaded(&self) -> bool {
        self.loaded
    }

    /// The node named `name`, if any.
    pub open spec fn node(&self, name: Seq<char>) -> Option<NodeConfig> {
        named(self.nodes(), name)
    }

    /// An empty, unloaded manager.
    pub fn new() -> (r: NodeConfigManager)
        ensures
            r.nodes().len() == 0,
            !r.loaded(),
    {
        NodeConfigManager { nodes: Vec::new(), loaded: false }
    }

    /// Replaces the loaded nodes with `nodes` and marks the configuration
    /// loaded. Of several entries with one name the last one counts. When
    /// `nodes` is empty, a single node `default_node` with the default
    /// configuration is loaded instead.
    pub fn load_nodes(&mut self, nodes: Vec<NodeConfig>)
        ensures
            final(self).loaded(),
            nodes@.len() > 0 ==> forall|k: Seq<char>| #[trigger] final(self).node(k) == last_named(nodes@, k),
            nodes@.len() == 0 ==> final(self).nodes().len() == 1 && final(self).nodes()[0].name@ == "default_node"@
                && final(self).nodes()[0].available_cpus@ == seq![0u32, 1, 2, 3]
                && final(self).nodes()[0].max_memory_mb == 4096,
    {
        let mut sorted: Vec<NodeConfig> = Vec::new();
        let ghost all = nodes@;
        let mut rest = nodes;
        let ghost mut done: int = 0;
        while rest.len() > 0
            invariant
                sorted_by_name(sorted@),
                all == nodes@,
                0 <= done <= all.len(),
                rest@ == all.skip(done),
                forall|k: Seq<char>| #[trigger] named(sorted@, k) == last_named(all.take(done), k),
            decreases rest@.len(),
        {
            let cfg = rest.remove(0);
            proof {
                assert(cfg == all[done]);
                assert(all.take(done + 1).drop_last() =~= all.take(done));
                assert(all.take(done + 1).last() == cfg);
                assert(rest@ =~= all.skip(done + 1));
            }
            insert_node(&mut sorted, cfg);
            proof {
                done = done + 1;
            }
        }
        proof {
            assert(all.take(done) =~= all);
            if all.len() == 0 && sorted@.len() > 0 {
                lemma_named_at(sorted@, 0);
            }
        }
        if sorted.len() == 0 {
            proof {
                if all.len() > 0 {
                    let c = all.last();
                    assert(last_named(all, c.name@) == Some(c));
                    assert(named(sorted@, c.name@) is None);
                }
            }
            let default = NodeConfig::default_config("default_node");
            sorted.push(default);
            proof {
                assert(sorted@.len() == 1);
                assert(sorted@[0] == default);
            }
        }
        self.nodes = sorted;
        self.loaded = true;
    }

    /// The configuration of node `name`, if loaded.
    pub fn get_node_config(&self, name: &str) -> (r: Option<&NodeConfig>)
        ensures
            r is None <==> self.node(name@) is None,
            r matches Some(c) ==> self.node(name@) == Some(*c),
    {
        proof {
            use_type_invariant(self);
        }
        match position(&self.nodes, name) {
            Ok(i) => {
                proof {
                    lemma_named_at(self.nodes@, i as int);
                }
                Some(&self.nodes[i])
            },
            Err(i) => {
                proof {
                    assert forall|k: int| 0 <= k < self.nodes().len() implies #[trigger] self.nodes()[k].name@ != name@ by {
                        lemma_seq_lt_irreflexive(name@);
                    }
                }
                None
            },
        }
    }

    /// Every loaded node, strictly ascending by name.
    pub fn get_all_nodes(&self) -> (r: &Vec<NodeConfig>)
        ensures
            r@ == self.nodes(),
            sorted_by_name(r@),
    {
        proof {
            use_type_invariant(self);
        }
        &self.nodes
    }

    /// The CPU ids of node `name`, or CPUs 0 to 3 when no such node is
    /// loaded.
    pub fn get_available_cpus(&self, name: &str) -> (r: Vec<u32>)
        ensures
            r@ == match self.node(name@) {
                Some(c) => c.available_cpus@,
                None => seq![0u32, 1, 2, 3],
            },
    {
        match self.get_node_config(name) {
            Some(c) => cpu_list(c.available_cpus.as_slice()),
            None => {
                let v = cpu_list(&[0u32, 1, 2, 3]);
                proof {
                    assert(v@ =~= seq![0u32, 1, 2, 3]);
                }
                v
            },
        }
    }

    /// Whether a configuration has been loaded.
    pub fn is_loaded(&self) -> (r: bool)
        ensures
            r == self.loaded(),
    {
        self.loaded
    }
}

} // verus!
