use vstd::prelude::*;
use crate::def::{Pos, State, lemma_idx_bounds};

verus! {

/// The judge's answer to an excavation, as the player acts on it.
#[derive(PartialEq, Eq, Structural, Clone, Copy, Debug)]
pub enum Response {
    /// The cell still stands.
    NotBroken,
    /// The cell broke.
    Broken,
    /// Every house has water: the game is over.
    Finished,
    /// The judge rejected the excavation.
    InvalidOperation,
    /// The judge answered something unknown.
    InvalidResult,
}

/// How the judge's code `r` is read.
pub open spec fn response_of(r: i64) -> Response {
    if r == 0 {
        Response::NotBroken
    } else if r == 1 {
        Response::Broken
    } else if r == 2 {
        Response::Finished
    } else if r == -1 {
        Response::InvalidOperation
    } else {
        Response::InvalidResult
    }
}

impl State {
    /// Records an excavation of `pos` with `power` before the judge answers:
    /// the damage so far becomes the damage before the last blow, and the
    /// damage grows by `power`.
    pub fn record_damage(&mut self, pos: &Pos, power: i64)
        requires
            old(self).wf(),
            pos.valid(),
            i64::MIN <= old(self).damage.at(*pos) + power <= i64::MAX,
        ensures
            final(self).wf(),
            final(self).damage_before_break@ == old(self).damage_before_break@.update(
                pos.idx(),
                old(self).damage.at(*pos),
            ),
            final(self).damage@ == old(self).damage@.update(pos.idx(), (old(self).damage.at(*pos) + power) as i64),
            final(self).is_broken@ == old(self).is_broken@,
            final(self).total_damage == old(self).total_damage,
    {
        proof {
            lemma_idx_bounds(*pos);
        }
        let current_damage = self.damage.get(pos);
        self.damage_before_break.set(pos, current_damage);
        self.damage.set(pos, current_damage + power);
    }

    /// Reads the judge's answer `r` to an excavation of `pos`; a broken
    /// cell is marked broken and nothing else changes.
    pub fn apply_response(&mut self, pos: &Pos, r: i64) -> (resp: Response)
        requires
            old(self).wf(),
            pos.valid(),
        ensures
            final(self).wf(),
            resp == response_of(r),
            r == 1 ==> final(self).is_broken@ == old(self).is_broken@.update(pos.idx(), true),
            r != 1 ==> final(self).is_broken@ == old(self).is_broken@,
            final(self).damage@ == old(self).damage@,
            final(self).damage_before_break@ == old(self).damage_before_break@,
            final(self).total_damage == old(self).total_damage,
    {
        proof {
            lemma_idx_bounds(*pos);
        }
        if r == 0 {
            Response::NotBroken
        } else if r == 1 {
            self.is_broken.set(pos, true);
            Response::Broken
        } else if r == 2 {
            Response::Finished
        } else if r == -1 {
            Response::InvalidOperation
        } else {
            Response::InvalidResult
        }
    }
}

} // verus!
