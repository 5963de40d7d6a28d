use vstd::prelude::*;
use crate::unit::{Hexagram, Qi};

verus! {

/// Outcome of a Qi decision.
#[derive(Debug, Clone, Copy, PartialEq, Eq, Structural)]
pub enum QiAction {
    /// Keep the current state.
    Noop,
    /// Add replicas.
    Replicate,
    /// Urgent rebuild (the Bo stage).
    EmergencyRebuild,
    /// Move to the hot tier.
    PromoteToHot,
    /// Move to the cold tier and compress.
    DemoteToCold,
    /// Archive.
    Archive,
    /// Standard protection reached.
    Stabilized,
}

/// The decision rule: Bo always triggers a rebuild; otherwise too few
/// replicas trigger replication; a freshly written unit with enough replicas
/// is stabilized; every other state is left alone.
pub open spec fn spec_decide(hexagram: Hexagram, replica_count: u8, target_replicas: u8) -> QiAction {
    if hexagram == Hexagram::Bo {
        QiAction::EmergencyRebuild
    } else if replica_count < target_replicas {
        QiAction::Replicate
    } else if hexagram == Hexagram::Zhun {
        QiAction::Stabilized
    } else {
        QiAction::Noop
    }
}

/// Decides the next lifecycle action of a data unit from its own Qi state.
pub fn decide(qi: &Qi) -> (action: QiAction)
    ensures
        action == spec_decide(qi.hexagram, qi.replica_count, qi.target_replicas),
{
    if qi.hexagram == Hexagram::Bo {
        return QiAction::EmergencyRebuild;
    }
    if qi.replica_count < qi.target_replicas {
        return QiAction::Replicate;
    }
    match qi.hexagram {
        Hexagram::Zhun => QiAction::Stabilized,
        Hexagram::Tai => {
            if qi.replica_count < qi.target_replicas {
                QiAction::Replicate
            } else {
                QiAction::Noop
            }
        },
        Hexagram::Pi => QiAction::Noop,
        Hexagram::Jiji => QiAction::Noop,
        Hexagram::Kun => QiAction::Noop,
        Hexagram::Bo => QiAction::EmergencyRebuild,
    }
}

/// Bo, the stage of decay, always calls for an emergency rebuild, whatever
/// the replica counts.
pub proof fn lemma_bo_rebuilds(replica_count: u8, target_replicas: u8)
    ensures
        spec_decide(Hexagram::Bo, replica_count, target_replicas) == QiAction::EmergencyRebuild,
{
}

/// At every stage but Bo, fewer replicas than the target call for
/// replication, whatever the stage.
pub proof fn lemma_short_replicas_replicate(hexagram: Hexagram, replica_count: u8, target_replicas: u8)
    requires
        hexagram != Hexagram::Bo,
        replica_count < target_replicas,
    ensures
        spec_decide(hexagram, replica_count, target_replicas) == QiAction::Replicate,
{
}

/// With the target reached, a unit is never replicated or rebuilt: a new
/// unit (Zhun) is stabilized and every other stage but Bo is left alone.
pub proof fn lemma_enough_replicas_settle(hexagram: Hexagram, replica_count: u8, target_replicas: u8)
    requires
        hexagram != Hexagram::Bo,
        replica_count >= target_replicas,
    ensures
        spec_decide(hexagram, replica_count, target_replicas) == (if hexagram == Hexagram::Zhun {
            QiAction::Stabilized
        } else {
            QiAction::Noop
        }),
{
}

} // verus!
