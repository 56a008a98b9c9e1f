//! The deployment manifest: which algorithms a deployment accepts, which phase
//! of the post-quantum migration it is in, and which topology it has.

use vstd::prelude::*;

use crate::maps::TextMap;
use crate::scope::{layer_contradiction, LayerConstraint};
use crate::sets::{join, joined_texts, texts};
use crate::sign::{suites_in_order, Suite, SuiteSet};
use crate::text::{cat2, cat3, lower_all, lowered, same_text, string_of, trim, trimmed};
use crate::time::Timestamp;
use crate::{ErrorView, SignatifError};

verus! {

/// The phase of the post-quantum migration.
#[derive(Debug, Clone, Copy, PartialEq, Eq, Structural)]
pub enum MigrationPhase {
    /// Classical algorithms only.
    Classical,
    /// Classical and post-quantum slots side by side.
    HybridCoSigned,
    /// Classical and post-quantum members in composite signatures.
    HybridComposite,
    /// Post-quantum algorithms only.
    PostQuantum,
}

/// A text without white space at its ends, in lower case.
pub open spec fn normal(s: Seq<char>) -> Seq<char> {
    lowered(trimmed(s))
}

fn normalize(s: &str) -> (r: String)
    ensures
        r@ == normal(s@),
{
    let t = trim(s);
    let l = lower_all(t.as_slice());
    string_of(l.as_slice())
}

/// The phase that a text names.
pub open spec fn phase_of_token(s: Seq<char>) -> Option<MigrationPhase> {
    if normal(s) == "classical"@ {
        Some(MigrationPhase::Classical)
    } else if normal(s) == "hybrid-co-signed"@ {
        Some(MigrationPhase::HybridCoSigned)
    } else if normal(s) == "hybrid-composite"@ {
        Some(MigrationPhase::HybridComposite)
    } else if normal(s) == "post-quantum"@ {
        Some(MigrationPhase::PostQuantum)
    } else {
        None
    }
}

impl MigrationPhase {
    /// The token of the phase.
    pub open spec fn spec_token(self) -> Seq<char> {
        match self {
            MigrationPhase::Classical => "classical"@,
            MigrationPhase::HybridCoSigned => "hybrid-co-signed"@,
            MigrationPhase::HybridComposite => "hybrid-composite"@,
            MigrationPhase::PostQuantum => "post-quantum"@,
        }
    }

    /// The token of the phase.
    pub fn token(&self) -> (r: &'static str)
        ensures
            r@ == self.spec_token(),
    {
        match self {
            MigrationPhase::Classical => "classical",
            MigrationPhase::HybridCoSigned => "hybrid-co-signed",
            MigrationPhase::HybridComposite => "hybrid-composite",
            MigrationPhase::PostQuantum => "post-quantum",
        }
    }

    /// Reads a phase token, whatever its case.
    pub fn parse_token(s: &str) -> (r: Result<MigrationPhase, SignatifError>)
        ensures
            r is Ok == phase_of_token(s@) is Some,
            r matches Ok(p) ==> Some(p) == phase_of_token(s@),
            r matches Err(e) ==> e@ == ErrorView::Validation(
                "unknown migration phase `"@ + s@ + "`"@,
            ),
    {
        let t = normalize(s);
        if same_text(t.as_str(), "classical") {
            Ok(MigrationPhase::Classical)
        } else if same_text(t.as_str(), "hybrid-co-signed") {
            Ok(MigrationPhase::HybridCoSigned)
        } else if same_text(t.as_str(), "hybrid-composite") {
            Ok(MigrationPhase::HybridComposite)
        } else if same_text(t.as_str(), "post-quantum") {
            Ok(MigrationPhase::PostQuantum)
        } else {
            Err(SignatifError::Validation(cat3("unknown migration phase `", s, "`")))
        }
    }

    /// Whether the phase demands classical and post-quantum algorithms.
    pub open spec fn hybrid(self) -> bool {
        self == MigrationPhase::HybridCoSigned || self == MigrationPhase::HybridComposite
    }

    /// Whether the phase demands classical and post-quantum algorithms.
    pub fn requires_hybrid_mix(self) -> (r: bool)
        ensures
            r == self.hybrid(),
    {
        match self {
            MigrationPhase::HybridCoSigned | MigrationPhase::HybridComposite => true,
            _ => false,
        }
    }
}

/// The topology of a deployment's trust.
#[derive(Debug, Clone, Copy, PartialEq, Eq, Structural)]
pub enum TopologyProfile {
    /// One root that delegates downward.
    Hierarchical,
    /// A threshold group at the root.
    Federated,
    /// Independent roots that recognize each other.
    CrossRecognized,
    /// Many roots that recognize each other in pairs.
    Mesh,
}

/// The topology that a text names.
pub open spec fn topology_of_token(s: Seq<char>) -> Option<TopologyProfile> {
    if normal(s) == "hierarchical"@ {
        Some(TopologyProfile::Hierarchical)
    } else if normal(s) == "federated"@ {
        Some(TopologyProfile::Federated)
    } else if normal(s) == "cross-recognized"@ {
        Some(TopologyProfile::CrossRecognized)
    } else if normal(s) == "mesh"@ {
        Some(TopologyProfile::Mesh)
    } else {
        None
    }
}

impl TopologyProfile {
    /// The token of the topology.
    pub open spec fn spec_token(self) -> Seq<char> {
        match self {
            TopologyProfile::Hierarchical => "hierarchical"@,
            TopologyProfile::Federated => "federated"@,
            TopologyProfile::CrossRecognized => "cross-recognized"@,
            TopologyProfile::Mesh => "mesh"@,
        }
    }

    /// The token of the topology.
    pub fn token(&self) -> (r: &'static str)
        ensures
            r@ == self.spec_token(),
    {
        match self {
            TopologyProfile::Hierarchical => "hierarchical",
            TopologyProfile::Federated => "federated",
            TopologyProfile::CrossRecognized => "cross-recognized",
            TopologyProfile::Mesh => "mesh",
        }
    }

    /// Reads a topology token, whatever its case.
    pub fn parse_token(s: &str) -> (r: Result<TopologyProfile, SignatifError>)
        ensures
            r is Ok == topology_of_token(s@) is Some,
            r matches Ok(p) ==> Some(p) == topology_of_token(s@),
            r matches Err(e) ==> e@ == ErrorView::Validation(
                "unknown topology profile `"@ + s@ + "`"@,
            ),
    {
        let t = normalize(s);
        if same_text(t.as_str(), "hierarchical") {
            Ok(TopologyProfile::Hierarchical)
        } else if same_text(t.as_str(), "federated") {
            Ok(TopologyProfile::Federated)
        } else if same_text(t.as_str(), "cross-recognized") {
            Ok(TopologyProfile::CrossRecognized)
        } else if same_text(t.as_str(), "mesh") {
            Ok(TopologyProfile::Mesh)
        } else {
            Err(SignatifError::Validation(cat3("unknown topology profile `", s, "`")))
        }
    }
}

/// The standing of a suite under a manifest.
#[derive(Debug, Clone, Copy, PartialEq, Eq, Structural)]
pub enum AlgorithmStatus {
    /// Accepted.
    Active,
    /// Still accepted, and scheduled for retirement.
    Deprecated,
    /// Not listed.
    NotListed,
}

/// A deployment manifest.
#[derive(Debug, Clone, PartialEq, Eq)]
pub struct DeploymentManifest {
    /// The version of the manifest.
    pub version: String,
    /// The operator.
    pub operator: String,
    /// The suites for new signatures.
    pub active_algorithms: SuiteSet,
    /// The suites that are only verified any more.
    pub deprecated_algorithms: SuiteSet,
    /// The phase of the migration.
    pub migration_phase: MigrationPhase,
    /// The topology.
    pub topology_profile: TopologyProfile,
    /// Further scope dimensions and their constraints.
    pub scope_extensions: TextMap<LayerConstraint>,
    /// When the manifest takes effect.
    pub effective_from: Timestamp,
}

/// Whether a set has a classical suite.
pub open spec fn has_classical(set: Set<Suite>) -> bool {
    exists|s: Suite| #[trigger] set.contains(s) && !s.post_quantum()
}

/// Whether a set has a post-quantum suite.
pub open spec fn has_post_quantum(set: Set<Suite>) -> bool {
    exists|s: Suite| #[trigger] set.contains(s) && s.post_quantum()
}

/// The tokens of suites.
pub open spec fn suite_tokens(s: Seq<Suite>) -> Seq<Seq<char>> {
    s.map_values(|x: Suite| x.token())
}

/// What is wrong with one scope extension.
pub open spec fn extension_fault(name: Seq<char>, constraint: LayerConstraint) -> Option<Seq<char>> {
    if trimmed(name).len() == 0 {
        Some("scope extension with an empty dimension name"@)
    } else if layer_contradiction(constraint@) {
        Some("scope extension `"@ + name + "` is a contradiction (empty allowed set)"@)
    } else {
        None
    }
}

/// What is wrong with the first bad one among the first `n` scope extensions.
pub open spec fn extensions_fault(
    names: Seq<Seq<char>>,
    constraints: Seq<LayerConstraint>,
    n: int,
) -> Option<Seq<char>>
    decreases n,
{
    if n <= 0 {
        None
    } else {
        match extensions_fault(names, constraints, n - 1) {
            Some(f) => Some(f),
            None => extension_fault(names[n - 1], constraints[n - 1]),
        }
    }
}

proof fn lemma_extensions_fault(
    names: Seq<Seq<char>>,
    constraints: Seq<LayerConstraint>,
    k: int,
    n: int,
)
    requires
        0 <= k <= n,
        extensions_fault(names, constraints, k) is Some,
    ensures
        extensions_fault(names, constraints, n) == extensions_fault(names, constraints, k),
    decreases n - k,
{
    if k < n {
        lemma_extensions_fault(names, constraints, k, n - 1);
    }
}

fn some_suite(set: &SuiteSet, post_quantum: bool) -> (r: bool)
    ensures
        r == (if post_quantum {
            has_post_quantum(set@)
        } else {
            has_classical(set@)
        }),
{
    let all = set.to_vec();
    proof {
        crate::sign::lemma_in_order_members(set@, 8);
        crate::sign::lemma_all_ranks();
    }
    let mut i: usize = 0;
    while i < all.len()
        invariant
            i <= all.len(),
            all@ == suites_in_order(set@, 8),
            forall|s: Suite| #[trigger]
                suites_in_order(set@, 8).contains(s) == (set@.contains(s) && s.rank() < 8),
            forall|k: int| 0 <= k < i ==> (#[trigger] all@[k]).post_quantum() != post_quantum,
        decreases all.len() - i,
    {
        if all[i].is_post_quantum() == post_quantum {
            proof {
                assert(suites_in_order(set@, 8).contains(all@[i as int]));
                assert(set@.contains(all@[i as int]));
            }
            return true;
        }
        i += 1;
    }
    proof {
        assert forall|s: Suite| #[trigger] set@.contains(s) implies s.post_quantum()
            != post_quantum by {
            assert(s.rank() < 8);
            assert(suites_in_order(set@, 8).contains(s));
            let k = choose|k: int| 0 <= k < all@.len() && all@[k] == s;
            assert(all@[k].post_quantum() != post_quantum);
        }
    }
    false
}

impl DeploymentManifest {
    /// What is wrong with the manifest; `None` if nothing is.
    pub open spec fn fault(self) -> Option<Seq<char>> {
        let active = self.active_algorithms@;
        let overlap = active.intersect(self.deprecated_algorithms@);
        if trimmed(self.version@).len() == 0 {
            Some("manifest version is empty"@)
        } else if trimmed(self.operator@).len() == 0 {
            Some("manifest operator is empty"@)
        } else if active == Set::<Suite>::empty() {
            Some("manifest declares no active algorithms"@)
        } else if overlap != Set::<Suite>::empty() {
            Some(
                "suites both active and deprecated: "@ + joined_texts(
                    suite_tokens(suites_in_order(overlap, 8)),
                    ", "@,
                ),
            )
        } else if self.migration_phase.hybrid() && !(has_classical(active) && has_post_quantum(
            active,
        )) {
            Some(
                "migration phase `"@ + self.migration_phase.spec_token()
                    + "` requires a mixed active set (≥1 classical and ≥1 post-quantum algorithm)"@,
            )
        } else if self.migration_phase == MigrationPhase::PostQuantum && has_classical(active) {
            Some(
                "migration phase `"@ + self.migration_phase.spec_token()
                    + "` must not list classical active algorithms"@,
            )
        } else {
            extensions_fault(
                self.scope_extensions.keys(),
                self.scope_extensions.values(),
                self.scope_extensions.keys().len() as int,
            )
        }
    }

    /// The status of a suite.
    pub open spec fn status(self, suite: Suite) -> AlgorithmStatus {
        if self.active_algorithms@.contains(suite) {
            AlgorithmStatus::Active
        } else if self.deprecated_algorithms@.contains(suite) {
            AlgorithmStatus::Deprecated
        } else {
            AlgorithmStatus::NotListed
        }
    }

    /// The status of a suite.
    pub fn algorithm_status(&self, suite: Suite) -> (r: AlgorithmStatus)
        ensures
            r == self.status(suite),
    {
        if self.active_algorithms.contains(suite) {
            AlgorithmStatus::Active
        } else if self.deprecated_algorithms.contains(suite) {
            AlgorithmStatus::Deprecated
        } else {
            AlgorithmStatus::NotListed
        }
    }

    /// Whether signatures under a suite are still verified: it is active or
    /// deprecated.
    pub fn accepts_verification(&self, suite: Suite) -> (r: bool)
        ensures
            r == (self.active_algorithms@.contains(suite) || self.deprecated_algorithms@.contains(
                suite,
            )),
    {
        match self.algorithm_status(suite) {
            AlgorithmStatus::NotListed => false,
            _ => true,
        }
    }

    fn tokens_of(suites: &Vec<Suite>) -> (r: Vec<String>)
        ensures
            texts(r@) == suite_tokens(suites@),
    {
        let mut out: Vec<String> = Vec::new();
        let mut i: usize = 0;
        while i < suites.len()
            invariant
                i <= suites.len(),
                texts(out@) =~= suite_tokens(suites@).take(i as int),
            decreases suites.len() - i,
        {
            let ghost before = texts(out@);
            let t = suites[i].to_string();
            out.push(t);
            assert(texts(out@) =~= before.push(suites@[i as int].token()));
            i += 1;
        }
        out
    }

    fn check_extensions(&self) -> (r: Result<(), SignatifError>)
        ensures
            match extensions_fault(
                self.scope_extensions.keys(),
                self.scope_extensions.values(),
                self.scope_extensions.keys().len() as int,
            ) {
                None => r is Ok,
                Some(f) => r matches Err(e) && e@ == ErrorView::Validation(f),
            },
    {
        let n = self.scope_extensions.len();
        let ghost names = self.scope_extensions.keys();
        let ghost constraints = self.scope_extensions.values();
        let mut i: usize = 0;
        while i < n
            invariant
                i <= n,
                names == self.scope_extensions.keys(),
                constraints == self.scope_extensions.values(),
                n == names.len(),
                n == constraints.len(),
                extensions_fault(names, constraints, i as int) is None,
            decreases n - i,
        {
            let name = self.scope_extensions.key_at(i);
            let t = trim(name.as_str());
            if t.len() == 0 {
                proof {
                    lemma_extensions_fault(names, constraints, i + 1, n as int);
                }
                return Err(SignatifError::invalid("scope extension with an empty dimension name"));
            }
            if self.scope_extensions.value_at(i).is_contradiction() {
                proof {
                    lemma_extensions_fault(names, constraints, i + 1, n as int);
                }
                return Err(
                    SignatifError::Validation(
                        cat3(
                            "scope extension `",
                            name.as_str(),
                            "` is a contradiction (empty allowed set)",
                        ),
                    ),
                );
            }
            i += 1;
        }
        Ok(())
    }

    /// Checks that the manifest is coherent.
    pub fn validate(&self) -> (r: Result<(), SignatifError>)
        ensures
            match self.fault() {
                None => r is Ok,
                Some(f) => r matches Err(e) && e@ == ErrorView::Validation(f),
            },
    {
        let version = trim(self.version.as_str());
        if version.len() == 0 {
            return Err(SignatifError::invalid("manifest version is empty"));
        }
        let operator = trim(self.operator.as_str());
        if operator.len() == 0 {
            return Err(SignatifError::invalid("manifest operator is empty"));
        }
        if self.active_algorithms.is_empty() {
            return Err(SignatifError::invalid("manifest declares no active algorithms"));
        }
        let overlap = self.active_algorithms.intersection(&self.deprecated_algorithms);
        if !overlap.is_empty() {
            let suites = overlap.to_vec();
            let tokens = DeploymentManifest::tokens_of(&suites);
            let list = join(&tokens, ", ");
            return Err(
                SignatifError::Validation(
                    cat2("suites both active and deprecated: ", list.as_str()),
                ),
            );
        }
        let classical = some_suite(&self.active_algorithms, false);
        let post_quantum = some_suite(&self.active_algorithms, true);
        if self.migration_phase.requires_hybrid_mix() && (!classical || !post_quantum) {
            return Err(
                SignatifError::Validation(
                    cat3(
                        "migration phase `",
                        self.migration_phase.token(),
                        "` requires a mixed active set (≥1 classical and ≥1 post-quantum algorithm)",
                    ),
                ),
            );
        }
        if self.migration_phase == MigrationPhase::PostQuantum && classical {
            return Err(
                SignatifError::Validation(
                    cat3(
                        "migration phase `",
                        self.migration_phase.token(),
                        "` must not list classical active algorithms",
                    ),
                ),
            );
        }
        self.check_extensions()
    }
}

/// What a coherent manifest is: named, with active algorithms that are not
/// deprecated at the same time, mixed in the hybrid phases and post-quantum
/// throughout in the last one.
pub proof fn coherent_manifests_keep_the_phase(manifest: DeploymentManifest)
    requires
        manifest.fault() is None,
    ensures
        manifest.active_algorithms@ != Set::<Suite>::empty(),
        forall|s: Suite|
            !(manifest.active_algorithms@.contains(s) && #[trigger] manifest.deprecated_algorithms@.contains(
                s,
            )),
        manifest.migration_phase.hybrid() ==> has_classical(manifest.active_algorithms@)
            && has_post_quantum(manifest.active_algorithms@),
        manifest.migration_phase == MigrationPhase::PostQuantum ==> forall|s: Suite| #[trigger]
            manifest.active_algorithms@.contains(s) ==> s.post_quantum(),
{
    let overlap = manifest.active_algorithms@.intersect(manifest.deprecated_algorithms@);
    assert forall|s: Suite|
        !(manifest.active_algorithms@.contains(s) && #[trigger] manifest.deprecated_algorithms@.contains(
            s,
        )) by {
        assert(!overlap.contains(s));
    }
}

/// The tokens of phases and topologies read back.
pub proof fn phase_and_topology_tokens_parse_back(phase: MigrationPhase, topology: TopologyProfile)
    ensures
        phase_of_token(phase.spec_token()) == Some(phase),
        topology_of_token(topology.spec_token()) == Some(topology),
{
    reveal_strlit("classical");
    reveal_strlit("hybrid-co-signed");
    reveal_strlit("hybrid-composite");
    reveal_strlit("post-quantum");
    reveal_strlit("hierarchical");
    reveal_strlit("federated");
    reveal_strlit("cross-recognized");
    reveal_strlit("mesh");
    let a = phase.spec_token();
    let b = topology.spec_token();
    assert(trimmed(a) == a);
    assert(trimmed(b) == b);
    assert(lowered(a) =~= a);
    assert(lowered(b) =~= b);
    assert("hybrid-co-signed"@[8] != "hybrid-composite"@[8] || "hybrid-co-signed"@[9]
        != "hybrid-composite"@[9]);
    assert("hierarchical"@.len() == 12);
    assert("post-quantum"@.len() == 12);
}

} // verus!
