//! The commands the engine issues to the host.

use vstd::prelude::*;
use crate::components::{CharacterId, EntityHandle, Position};

verus! {

/// An animation the host can play on an entity.
#[derive(Debug, Clone, Copy, PartialEq, Eq, Structural)]
pub enum Animation {
    KnifeSlash,
    Eating,
    EatingDone,
}

/// The name under which the host knows an animation.
pub open spec fn animation_name(animation: Animation) -> Seq<char> {
    match animation {
        Animation::KnifeSlash => "KnifeSlash"@,
        Animation::Eating => "Eating"@,
        Animation::EatingDone => "EatingDone"@,
    }
}

impl Animation {
    /// The name under which the host knows this animation.
    pub fn name(&self) -> (name: &'static str)
        ensures
            name@ == animation_name(*self),
    {
        match self {
            Animation::KnifeSlash => "KnifeSlash",
            Animation::Eating => "Eating",
            Animation::EatingDone => "EatingDone",
        }
    }
}

/// One command to the host. It is addressed to the entity named by
/// `handle`; the host carries it out and reports nothing back.
#[derive(Debug, Clone)]
pub enum HostCommand {
    /// Walk to `position`.
    GoTo { handle: EntityHandle, position: Position },
    /// Hurt the character `character_id`.
    ApplyDamage { handle: EntityHandle, character_id: CharacterId },
    /// Play `animation`.
    PlayAnimation { handle: EntityHandle, animation: Animation },
    /// Go off under the character `character_id`.
    Detonate { handle: EntityHandle, character_id: CharacterId },
    /// Tear the host entity down. Its handle is dead afterwards.
    Destroy { handle: EntityHandle },
}

/// What a [`HostCommand`] says.
pub enum HostCommandView {
    GoTo { handle: EntityHandle, position: Position },
    ApplyDamage { handle: EntityHandle, character_id: Seq<char> },
    PlayAnimation { handle: EntityHandle, animation: Animation },
    Detonate { handle: EntityHandle, character_id: Seq<char> },
    Destroy { handle: EntityHandle },
}

impl View for HostCommand {
    type V = HostCommandView;

    open spec fn view(&self) -> HostCommandView {
        match *self {
            HostCommand::GoTo { handle, position } => HostCommandView::GoTo { handle, position },
            HostCommand::ApplyDamage { handle, character_id } => HostCommandView::ApplyDamage {
                handle,
                character_id: character_id@,
            },
            HostCommand::PlayAnimation { handle, animation } => HostCommandView::PlayAnimation {
                handle,
                animation,
            },
            HostCommand::Detonate { handle, character_id } => HostCommandView::Detonate {
                handle,
                character_id: character_id@,
            },
            HostCommand::Destroy { handle } => HostCommandView::Destroy { handle },
        }
    }
}

/// What a list of commands says, in order.
pub open spec fn issued(commands: Seq<HostCommand>) -> Seq<HostCommandView> {
    Seq::new(commands.len(), |i: int| commands[i]@)
}

/// Appending a command to a list appends what it says.
pub proof fn lemma_issued_push(commands: Seq<HostCommand>, command: HostCommand)
    ensures
        issued(commands.push(command)) == issued(commands).push(command@),
{
    assert(issued(commands.push(command)) =~= issued(commands).push(command@));
}

} // verus!
