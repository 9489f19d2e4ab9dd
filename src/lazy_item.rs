use vstd::prelude::*;
use crate::types::{FileIndex, FileOffset, VersionHash};

verus! {

/// `4^k`.
pub open spec fn pow4(k: nat) -> nat
    decreases k,
{
    if k == 0 {
        1
    } else {
        4 * pow4((k - 1) as nat)
    }
}

/// The values of `4^k` for `k <= 8`.
pub open spec fn pow4_table() -> bool {
    &&& pow4(0) == 1
    &&& pow4(1) == 4
    &&& pow4(2) == 16
    &&& pow4(3) == 64
    &&& pow4(4) == 256
    &&& pow4(5) == 1024
    &&& pow4(6) == 4096
    &&& pow4(7) == 16384
    &&& pow4(8) == 65536
}

/// `4^k` for `k <= 8`.
pub proof fn lemma_pow4_values()
    ensures
        pow4_table(),
{
    reveal_with_fuel(pow4, 9);
}

/// The exponent of the largest power of four that is at most `x`.
///
/// For every non-zero 16-bit `x` the result `r` satisfies
/// `4^r <= x < 4^(r+1)`.
pub fn largest_power_of_4_below(x: u16) -> (r: u8)
    requires
        x != 0,
    ensures
        r <= 7,
        pow4(r as nat) <= x,
        x < pow4(r as nat + 1),
{
    proof {
        lemma_pow4_values();
    }
    let mut r: u8 = 0;
    let mut p: u32 = 1;
    while p * 4 <= x as u32
        invariant
            r <= 7,
            p as nat == pow4(r as nat),
            p <= x,
            p <= 16384,
            pow4_table(),
        decreases 16384 - p,
    {
        p = p * 4;
        r = r + 1;
    }
    r
}

/// A loaded record together with where it lives.
#[derive(PartialEq, Debug)]
pub struct ReadyState<T> {
    pub data: T,
    pub file_offset: FileOffset,
    pub version_id: VersionHash,
    pub version_number: u16,
}

/// Either a loaded record or the locator of one not yet loaded.
#[derive(PartialEq, Debug)]
pub enum ProbLazyItemState<T> {
    Ready(ReadyState<T>),
    Pending(FileIndex),
}

impl<T> ProbLazyItemState<T> {
    /// The locator that the state stands for, loaded or not.
    pub open spec fn file_index(&self) -> FileIndex {
        match self {
            ProbLazyItemState::Pending(fi) => *fi,
            ProbLazyItemState::Ready(s) => FileIndex {
                offset: s.file_offset,
                version_number: s.version_number,
                version_id: s.version_id,
            },
        }
    }

    pub fn get_version_number(&self) -> (r: u16)
        ensures
            r == self.file_index().version_number,
    {
        match self {
            ProbLazyItemState::Pending(file_index) => file_index.version_number,
            ProbLazyItemState::Ready(state) => state.version_number,
        }
    }

    pub fn get_version_id(&self) -> (r: VersionHash)
        ensures
            r == self.file_index().version_id,
    {
        match self {
            ProbLazyItemState::Pending(file_index) => file_index.version_id,
            ProbLazyItemState::Ready(state) => state.version_id,
        }
    }
}

/// A handle that is either pending (a locator) or ready (loaded data).
///
/// Two items are equal when their level flags and their states are equal.
#[derive(PartialEq, Debug)]
pub struct ProbLazyItem<T> {
    pub state: ProbLazyItemState<T>,
    pub is_level_0: bool,
}

impl<T> ProbLazyItem<T> {
    /// The current state of the item.
    pub open spec fn spec_state(&self) -> ProbLazyItemState<T> {
        self.state
    }

    /// The locator of the item, loaded or not.
    pub open spec fn spec_file_index(&self) -> FileIndex {
        self.spec_state().file_index()
    }

    pub open spec fn spec_version_number(&self) -> u16 {
        self.spec_file_index().version_number
    }

    pub fn new(
        data: T,
        version_id: VersionHash,
        version_number: u16,
        is_level_0: bool,
        file_offset: FileOffset,
    ) -> (r: Self)
        ensures
            r.spec_state() == ProbLazyItemState::Ready(
                ReadyState { data, file_offset, version_id, version_number },
            ),
            r.is_level_0 == is_level_0,
    {
        ProbLazyItem {
            state: ProbLazyItemState::Ready(
                ReadyState { data, file_offset, version_id, version_number },
            ),
            is_level_0,
        }
    }

    pub fn new_from_state(state: ProbLazyItemState<T>, is_level_0: bool) -> (r: Self)
        ensures
            r.spec_state() == state,
            r.is_level_0 == is_level_0,
    {
        ProbLazyItem { state, is_level_0 }
    }

    pub fn new_pending(file_index: FileIndex, is_level_0: bool) -> (r: Self)
        ensures
            r.spec_state() == ProbLazyItemState::<T>::Pending(file_index),
            r.is_level_0 == is_level_0,
    {
        ProbLazyItem { state: ProbLazyItemState::Pending(file_index), is_level_0 }
    }

    pub fn unsafe_get_state(&self) -> (r: &ProbLazyItemState<T>)
        ensures
            *r == self.spec_state(),
    {
        &self.state
    }

    /// Installs a loaded state. A state only ever moves from pending to ready.
    pub fn set_state(&mut self, new_state: ProbLazyItemState<T>)
        requires
            new_state is Ready,
        ensures
            final(self).spec_state() == new_state,
            final(self).is_level_0 == old(self).is_level_0,
    {
        self.state = new_state;
    }

    pub fn is_ready(&self) -> (r: bool)
        ensures
            r == self.spec_state() is Ready,
    {
        match &self.state {
            ProbLazyItemState::Ready(_) => true,
            ProbLazyItemState::Pending(_) => false,
        }
    }

    pub fn is_pending(&self) -> (r: bool)
        ensures
            r == self.spec_state() is Pending,
    {
        match &self.state {
            ProbLazyItemState::Ready(_) => false,
            ProbLazyItemState::Pending(_) => true,
        }
    }

    pub fn get_lazy_data(&self) -> (r: Option<&T>)
        ensures
            match self.spec_state() {
                ProbLazyItemState::Ready(s) => r == Some(&s.data),
                ProbLazyItemState::Pending(_) => r is None,
            },
    {
        match &self.state {
            ProbLazyItemState::Pending(_) => None,
            ProbLazyItemState::Ready(state) => Some(&state.data),
        }
    }

    pub fn get_file_index(&self) -> (r: FileIndex)
        ensures
            r == self.spec_file_index(),
    {
        match &self.state {
            ProbLazyItemState::Pending(file_index) => *file_index,
            ProbLazyItemState::Ready(state) => FileIndex {
                offset: state.file_offset,
                version_number: state.version_number,
                version_id: state.version_id,
            },
        }
    }

    pub fn get_current_version_id(&self) -> (r: VersionHash)
        ensures
            r == self.spec_file_index().version_id,
    {
        self.state.get_version_id()
    }

    pub fn get_current_version_number(&self) -> (r: u16)
        ensures
            r == self.spec_version_number(),
    {
        self.state.get_version_number()
    }
}

} // verus!
