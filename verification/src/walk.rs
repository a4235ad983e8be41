//! A walk over packages, one after the other, that ends at the first error.
//!
//! Looking on disk, downloading and visiting are left to the caller: `step` tells what to do, and
//! `checked`, `downloaded` and `visited` take what came of it.
use vstd::prelude::*;

use crate::graph::PackageId;

verus! {

/// What to do next in a walk.
#[derive(Clone, Copy, Debug, PartialEq, Eq, Structural)]
pub enum WalkStep {
    /// See whether the package lies on disk.
    Check(PackageId),
    /// Download the package.
    Download(PackageId),
    /// Visit the package.
    Visit(PackageId),
    /// Take the outcome.
    Finish,
}

/// Where a walk stands with its next package.
#[derive(Clone, Copy, Debug, PartialEq, Eq, Structural)]
pub enum WalkStage {
    Checking,
    Downloading,
    Visiting,
}

/// What a walk holds.
pub struct WalkView<E> {
    /// The packages to visit, in order.
    pub ids: Seq<PackageId>,
    /// Whether the packages have to lie on disk.
    pub on_disk: bool,
    /// How many packages were visited.
    pub position: nat,
    pub stage: WalkStage,
    /// The error that ended the walk.
    pub error: Option<E>,
}

/// Where a walk starts with a package.
pub open spec fn first_stage(on_disk: bool) -> WalkStage {
    if on_disk {
        WalkStage::Checking
    } else {
        WalkStage::Visiting
    }
}

impl<E> WalkView<E> {
    /// The walk over some packages.
    pub open spec fn start(ids: Seq<PackageId>, on_disk: bool) -> WalkView<E> {
        WalkView { ids, on_disk, position: 0, stage: first_stage(on_disk), error: None }
    }

    /// What to do next.
    pub open spec fn step(self) -> WalkStep {
        if self.error is Some || self.position >= self.ids.len() {
            WalkStep::Finish
        } else {
            let id = self.ids[self.position as int];
            match self.stage {
                WalkStage::Checking => WalkStep::Check(id),
                WalkStage::Downloading => WalkStep::Download(id),
                WalkStage::Visiting => WalkStep::Visit(id),
            }
        }
    }

    /// The packages that were visited, in order.
    pub open spec fn visited(self) -> Seq<PackageId> {
        self.ids.take(self.position as int)
    }

    /// The walk after it was seen whether the next package lies on disk.
    pub open spec fn with_check(self, is_there: bool) -> WalkView<E> {
        WalkView {
            stage: if is_there {
                WalkStage::Visiting
            } else {
                WalkStage::Downloading
            },
            ..self
        }
    }

    /// The walk after the next package was downloaded, or could not be.
    pub open spec fn with_download(self, outcome: Result<(), E>) -> WalkView<E> {
        match outcome {
            Ok(_) => WalkView { stage: WalkStage::Visiting, ..self },
            Err(error) => WalkView { error: Some(error), ..self },
        }
    }

    /// The walk after the next package was visited, with or without an error.
    pub open spec fn with_visit(self, outcome: Result<(), E>) -> WalkView<E> {
        match outcome {
            Ok(_) => WalkView {
                position: self.position + 1,
                stage: first_stage(self.on_disk),
                ..self
            },
            Err(error) => WalkView { error: Some(error), ..self },
        }
    }
}

/// A walk over packages.
pub struct CrateWalk<E> {
    ids: Vec<PackageId>,
    on_disk: bool,
    position: usize,
    stage: WalkStage,
    error: Option<E>,
}

impl<E> View for CrateWalk<E> {
    type V = WalkView<E>;

    closed spec fn view(&self) -> WalkView<E> {
        WalkView {
            ids: self.ids@,
            on_disk: self.on_disk,
            position: self.position as nat,
            stage: self.stage,
            error: self.error,
        }
    }
}

impl<E> CrateWalk<E> {
    #[verifier::type_invariant]
    spec fn is_inside(self) -> bool {
        self.position <= self.ids@.len()
    }

    fn start_of(on_disk: bool) -> (stage: WalkStage)
        ensures
            stage == first_stage(on_disk),
    {
        if on_disk {
            WalkStage::Checking
        } else {
            WalkStage::Visiting
        }
    }

    /// Starts a walk over some packages, which have to lie on disk or not.
    pub fn new(ids: Vec<PackageId>, on_disk: bool) -> (walk: CrateWalk<E>)
        ensures
            walk@ == WalkView::<E>::start(ids@, on_disk),
    {
        CrateWalk { ids, on_disk, position: 0, stage: Self::start_of(on_disk), error: None }
    }

    /// What to do next.
    pub fn step(&self) -> (step: WalkStep)
        ensures
            step == self@.step(),
    {
        if self.error.is_some() || self.position >= self.ids.len() {
            return WalkStep::Finish;
        }
        let id = self.ids[self.position];
        match self.stage {
            WalkStage::Checking => WalkStep::Check(id),
            WalkStage::Downloading => WalkStep::Download(id),
            WalkStage::Visiting => WalkStep::Visit(id),
        }
    }

    /// Takes whether the next package lies on disk.
    pub fn checked(&mut self, is_there: bool)
        requires
            old(self)@.step() is Check,
        ensures
            final(self)@ == old(self)@.with_check(is_there),
    {
        self.stage = if is_there {
            WalkStage::Visiting
        } else {
            WalkStage::Downloading
        };
    }

    /// Takes what came of downloading the next package.
    pub fn downloaded(&mut self, outcome: Result<(), E>)
        requires
            old(self)@.step() is Download,
        ensures
            final(self)@ == old(self)@.with_download(outcome),
    {
        match outcome {
            Ok(_) => {
                self.stage = WalkStage::Visiting;
            },
            Err(error) => {
                self.error = Some(error);
            },
        }
    }

    /// Takes what came of visiting the next package.
    pub fn visited(&mut self, outcome: Result<(), E>)
        requires
            old(self)@.step() is Visit,
        ensures
            final(self)@ == old(self)@.with_visit(outcome),
    {
        match outcome {
            Ok(_) => {
                assert(self.position < self.ids.len());
                self.position = self.position + 1;
                self.stage = Self::start_of(self.on_disk);
            },
            Err(error) => {
                self.error = Some(error);
            },
        }
    }

    /// The error that ended the walk. Without one every package was visited, once and in order.
    pub fn finish(self) -> (outcome: Result<(), E>)
        requires
            self@.step() is Finish,
        ensures
            match self@.error {
                Some(error) => outcome == Err::<(), E>(error),
                None => outcome is Ok && self@.visited() == self@.ids,
            },
    {
        proof {
            use_type_invariant(&self);
            if self@.error is None {
                assert(self@.ids.take(self@.position as int) =~= self@.ids);
            }
        }
        match self.error {
            Some(error) => Err(error),
            None => Ok(()),
        }
    }
}

/// A walk starts with the first package: it checks it where packages have to lie on disk, and visits
/// it where not. Without packages it is over.
pub proof fn law_walk_starts<E>(ids: Seq<PackageId>, on_disk: bool)
    ensures
        WalkView::<E>::start(ids, on_disk).ids == ids,
        WalkView::<E>::start(ids, on_disk).visited() == Seq::<PackageId>::empty(),
        WalkView::<E>::start(ids, on_disk).error is None,
        WalkView::<E>::start(ids, on_disk).step() == if ids.len() == 0 {
            WalkStep::Finish
        } else if on_disk {
            WalkStep::Check(ids[0])
        } else {
            WalkStep::Visit(ids[0])
        },
{
    assert(ids.take(0) =~= Seq::empty());
}

/// After a visit a walk goes on with the package that follows, or is over.
pub proof fn law_walk_goes_on<E>(walk: WalkView<E>)
    requires
        walk.step() is Visit,
    ensures
        walk.step() == WalkStep::Visit(walk.ids[walk.visited().len() as int]),
        walk.with_visit(Ok(())).step() == if walk.visited().len() + 1 == walk.ids.len() {
            WalkStep::Finish
        } else if walk.on_disk {
            WalkStep::Check(walk.ids[walk.visited().len() as int + 1])
        } else {
            WalkStep::Visit(walk.ids[walk.visited().len() as int + 1])
        },
{
}

/// A walk that goes on has visited one package more: the one that it was at.
pub proof fn law_walk_visits_in_order<E>(walk: WalkView<E>)
    requires
        walk.step() is Visit,
    ensures
        walk.with_visit(Ok(())).visited() == walk.visited().push(walk.ids[walk.position as int]),
        walk.with_visit(Ok(())).ids == walk.ids,
        walk.with_visit(Ok(())).error == walk.error,
{
    assert(walk.ids.take(walk.position as int + 1) =~= walk.ids.take(walk.position as int).push(
        walk.ids[walk.position as int],
    ));
}

/// A walk ends at the first error, and has then visited what it had visited before.
pub proof fn law_walk_ends_at_error<E>(walk: WalkView<E>, error: E)
    requires
        walk.step() is Download || walk.step() is Visit,
    ensures
        walk.step() is Download ==> {
            let after = walk.with_download(Err(error));
            after.step() is Finish && after.error == Some(error) && after.visited()
                == walk.visited()
        },
        walk.step() is Visit ==> {
            let after = walk.with_visit(Err(error));
            after.step() is Finish && after.error == Some(error) && after.visited()
                == walk.visited()
        },
{
}

/// Where packages have to lie on disk, each is checked first, and visited as soon as it is there:
/// at once, or after it was downloaded.
pub proof fn law_walk_downloads_what_is_missing<E>(walk: WalkView<E>, id: PackageId)
    requires
        walk.step() == WalkStep::Check(id),
    ensures
        walk.with_check(true).step() == WalkStep::Visit(id),
        walk.with_check(false).step() == WalkStep::Download(id),
        walk.with_check(false).with_download(Ok(())).step() == WalkStep::Visit(id),
{
}

} // verus!
