//! The ledger of projects whose complete image is resident on a device.

use crate::arith::{saturated, spec_max};
use crate::error::{fails_with, Error, ErrorCode, Result};
use vstd::prelude::*;

verus! {

/// What a backend knows of one resident project.
#[derive(Clone, Copy, Debug, PartialEq, Eq, Structural)]
pub struct ResidentProject {
    pub project: u128,
    pub allocated_bytes: usize,
    pub revision: u64,
    pub bookmark: u64,
    pub layout_version: u32,
}

/// Resident projects by ascending identity.
pub struct ResidentLedger {
    pub projects: Vec<ResidentProject>,
}

/// The bytes of the first projects, one of them left out.
pub open spec fn bytes_without(
    projects: Seq<ResidentProject>,
    project: Option<u128>,
    count: int,
) -> int
    decreases count,
{
    if count <= 0 {
        0
    } else {
        bytes_without(projects, project, count - 1) + if project == Some(
            projects[count - 1].project,
        ) {
            0int
        } else {
            projects[count - 1].allocated_bytes as int
        }
    }
}

/// The greatest revision of the first projects.
pub open spec fn newest(projects: Seq<ResidentProject>, count: int) -> Option<u64>
    decreases count,
{
    if count <= 0 {
        None
    } else {
        match newest(projects, count - 1) {
            Some(revision) => Some(
                spec_max(revision as int, projects[count - 1].revision as int) as u64,
            ),
            None => Some(projects[count - 1].revision),
        }
    }
}

/// `uuid::Uuid` written out: the text of an identity.
pub uninterp spec fn identity_text(identity: u128) -> Seq<char>;

/// `uuid::Uuid::from_u128` and its `Display`: the hyphenated text of an identity, which depends on the
/// identity alone.
#[verifier::external_body]
fn write_identity(identity: u128) -> (text: String)
    ensures
        text@ == identity_text(identity),
{
    uuid::Uuid::from_u128(identity).to_string()
}

/// The failure for a project that has no image.
pub open spec fn missing_message(kind: &str, project: u128) -> Seq<char> {
    "project "@ + identity_text(project) + " has no complete "@ + kind@ + "-resident image"@
}

impl ResidentLedger {
    pub open spec fn wf(&self) -> bool {
        forall|i: int, j: int|
            0 <= i < j < self.projects@.len() ==> (#[trigger] self.projects@[i]).project < (
            #[trigger] self.projects@[j]).project
    }

    /// The project is at this place.
    pub open spec fn at(&self, place: int, project: u128) -> bool {
        0 <= place < self.projects@.len() && self.projects@[place].project == project
    }

    /// The project is resident.
    pub open spec fn has(&self, project: u128) -> bool {
        exists|place: int| #[trigger] self.at(place, project)
    }

    /// All bytes, or all but those of one project.
    pub open spec fn total(&self, project: Option<u128>) -> int {
        bytes_without(self.projects@, project, self.projects@.len() as int)
    }

    pub fn new() -> (ledger: Self)
        ensures
            ledger.wf(),
            ledger.projects@.len() == 0,
    {
        ResidentLedger { projects: Vec::new() }
    }

    fn place_of(&self, project: u128) -> (place: Option<usize>)
        ensures
            match place {
                Some(place) => self.at(place as int, project),
                None => !self.has(project),
            },
    {
        for index in 0..self.projects.len()
            invariant
                forall|i: int| 0 <= i < index ==> !self.at(i, project),
        {
            if self.projects[index].project == project {
                assert(self.at(index as int, project));
                return Some(index);
            }
        }
        None
    }

    /// What is known of a project, or the failure that it has no image on the device.
    pub fn project(&self, kind: &str, project: u128) -> (result: Result<ResidentProject>)
        ensures
            match result {
                Ok(resident) => exists|place: int| #[trigger]
                    self.at(place, project) && self.projects@[place] == resident,
                Err(error) => !self.has(project) && error.is(
                    ErrorCode::GpuAdmissionFailure,
                    missing_message(kind, project),
                ),
            },
    {
        match self.place_of(project) {
            Some(place) => Ok(self.projects[place]),
            None => {
                let mut message = String::from_str("project ");
                message.append(write_identity(project).as_str());
                message.append(" has no complete ");
                message.append(kind);
                message.append("-resident image");
                Err(Error { code: ErrorCode::GpuAdmissionFailure, message })
            },
        }
    }

    /// Bytes of all projects once one of them takes a number of bytes.
    pub fn total_after(&self, project: u128, replacement_bytes: usize) -> (total: usize)
        ensures
            total == saturated(replacement_bytes + self.total(Some(project))),
    {
        let mut total: usize = replacement_bytes;
        for index in 0..self.projects.len()
            invariant
                total == saturated(
                    replacement_bytes + bytes_without(
                        self.projects@,
                        Some(project),
                        index as int,
                    ),
                ),
                bytes_without(self.projects@, Some(project), index as int) >= 0,
        {
            if self.projects[index].project != project {
                total = total.saturating_add(self.projects[index].allocated_bytes);
            }
        }
        total
    }

    /// Publishes a project, in place of an earlier image of it.
    pub fn admit_project(&mut self, resident: ResidentProject)
        requires
            old(self).wf(),
        ensures
            final(self).wf(),
            forall|other: ResidentProject| #[trigger]
                final(self).projects@.contains(other) <==> other == resident || (
                old(self).projects@.contains(other) && other.project != resident.project),
            final(self).total(None) == resident.allocated_bytes + old(self).total(
                Some(resident.project),
            ),
    {
        let ghost before = *self;
        let mut place: usize = 0;
        while place < self.projects.len() && self.projects[place].project < resident.project
            invariant
                *self == before,
                place <= before.projects@.len(),
                forall|i: int|
                    0 <= i < place ==> (#[trigger] before.projects@[i]).project < resident.project,
            decreases before.projects@.len() - place,
        {
            place = place + 1;
        }
        let ghost here = place as int;
        if place < self.projects.len() && self.projects[place].project == resident.project {
            self.projects.set(place, resident);
            proof {
                lemma_replaced(before.projects@, here, resident, before.projects@.len() as int);
                assert forall|other: ResidentProject| #[trigger]
                    self.projects@.contains(other) <==> other == resident || (
                    before.projects@.contains(other) && other.project != resident.project) by {
                    if self.projects@.contains(other) {
                        let i = choose|i: int| 0 <= i < self.projects@.len() && self.projects@[i]
                            == other;
                        if i != here {
                            assert(before.projects@[i] == other);
                        }
                    }
                    if before.projects@.contains(other) && other.project != resident.project {
                        let i = choose|i: int|
                            0 <= i < before.projects@.len() && before.projects@[i] == other;
                        assert(self.projects@[i] == other);
                    }
                    assert(self.projects@[here] == resident);
                }
            }
        } else {
            self.projects.insert(place, resident);
            proof {
                assert(self.projects@ == before.projects@.insert(here, resident));
                lemma_inserted(before.projects@, here, resident, before.projects@.len() as int);
                assert forall|other: ResidentProject| #[trigger]
                    self.projects@.contains(other) <==> other == resident || (
                    before.projects@.contains(other) && other.project != resident.project) by {
                    if self.projects@.contains(other) {
                        let i = choose|i: int| 0 <= i < self.projects@.len() && self.projects@[i]
                            == other;
                        if i < here {
                            assert(before.projects@[i] == other);
                        } else if i > here {
                            assert(before.projects@[i - 1] == other);
                            if here < i - 1 {
                                assert(before.projects@[here].project < before.projects@[i
                                    - 1].project);
                            }
                        }
                    }
                    if before.projects@.contains(other) {
                        let i = choose|i: int|
                            0 <= i < before.projects@.len() && before.projects@[i] == other;
                        if i < here {
                            assert(self.projects@[i] == other);
                        } else {
                            assert(self.projects@[i + 1] == other);
                        }
                    }
                    assert(self.projects@[here] == resident);
                }
                assert forall|i: int, j: int| 0 <= i < j < self.projects@.len() implies (
                #[trigger] self.projects@[i]).project < (#[trigger] self.projects@[j]).project by {
                    let a = if i < here {
                        i
                    } else {
                        i - 1
                    };
                    let b = if j < here {
                        j
                    } else {
                        j - 1
                    };
                    if i != here && j != here {
                        assert(before.projects@[a].project < before.projects@[b].project);
                    } else if i == here && b > here {
                        assert(before.projects@[here].project < before.projects@[b].project);
                    }
                }
            }
        }
    }

    /// Takes a project away. Nothing happens where it is not resident.
    pub fn evict(&mut self, project: u128)
        requires
            old(self).wf(),
        ensures
            final(self).wf(),
            !final(self).has(project),
            forall|other: ResidentProject| #[trigger]
                final(self).projects@.contains(other) <==> old(self).projects@.contains(other)
                    && other.project != project,
            final(self).total(None) == old(self).total(Some(project)),
    {
        let ghost before = *self;
        match self.place_of(project) {
            Some(place) => {
                let _ = self.projects.remove(place);
                proof {
                    let here = place as int;
                    lemma_removed(before.projects@, here, before.projects@.len() as int);
                    assert forall|i: int, j: int| 0 <= i < j < self.projects@.len() implies (
                    #[trigger] self.projects@[i]).project < (
                    #[trigger] self.projects@[j]).project by {
                        let a = if i < here {
                            i
                        } else {
                            i + 1
                        };
                        let b = if j < here {
                            j
                        } else {
                            j + 1
                        };
                        assert(before.projects@[a].project < before.projects@[b].project);
                    }
                    assert forall|other: ResidentProject| #[trigger]
                        self.projects@.contains(other) <==> before.projects@.contains(other)
                            && other.project != project by {
                        if self.projects@.contains(other) {
                            let i = choose|i: int|
                                0 <= i < self.projects@.len() && self.projects@[i] == other;
                            let a = if i < here {
                                i
                            } else {
                                i + 1
                            };
                            assert(before.projects@[a] == other);
                            if a < here {
                                assert(before.projects@[a].project < before.projects@[here].project);
                            } else {
                                assert(before.projects@[here].project < before.projects@[a].project);
                            }
                        }
                        if before.projects@.contains(other) && other.project != project {
                            let i = choose|i: int|
                                0 <= i < before.projects@.len() && before.projects@[i] == other;
                            if i < here {
                                assert(self.projects@[i] == other);
                            } else {
                                assert(self.projects@[i - 1] == other);
                            }
                        }
                    }
                    if self.has(project) {
                        let i = choose|i: int| #[trigger] self.at(i, project);
                        assert(self.projects@.contains(self.projects@[i]));
                    }
                }
            },
            None => {
                proof {
                    assert forall|i: int| 0 <= i < before.projects@.len() implies (
                    #[trigger] before.projects@[i]).project != project by {
                        if before.projects@[i].project == project {
                            assert(before.at(i, project));
                        }
                    }
                    lemma_absent(before.projects@, project, before.projects@.len() as int);
                    assert forall|other: ResidentProject| #[trigger]
                        before.projects@.contains(other) implies other.project != project by {
                        let i = choose|i: int|
                            0 <= i < before.projects@.len() && before.projects@[i] == other;
                        if other.project == project {
                            assert(before.at(i, project));
                        }
                    }
                }
            },
        }
    }

    /// Takes all projects of a snapshot in place of those that are resident. A snapshot that holds a
    /// project twice, or more bytes than can be counted, is refused.
    pub fn replace_all(&mut self, images: &[ResidentProject], kind: &str) -> (result: Result<usize>)
        requires
            old(self).wf(),
        ensures
            final(self).wf(),
            if bytes_without(images@, None, images@.len() as int) > usize::MAX {
                fails_with(
                    result,
                    ErrorCode::GpuAdmissionFailure,
                    "replacement "@ + kind@ + " project bytes overflow"@,
                ) && *final(self) == *old(self)
            } else if !distinct(images@, images@.len() as int) {
                fails_with(
                    result,
                    ErrorCode::CorruptStorage,
                    "snapshot contains a duplicate project ID"@,
                ) && *final(self) == *old(self)
            } else {
                &&& result == Ok::<usize, Error>(
                    bytes_without(images@, None, images@.len() as int) as usize,
                )
                &&& forall|other: ResidentProject| #[trigger]
                    final(self).projects@.contains(other) <==> images@.contains(other)
            },
    {
        let mut total: usize = 0;
        for index in 0..images.len()
            invariant
                *self == *old(self),
                old(self).wf(),
                total == bytes_without(images@, None, index as int),
        {
            proof {
                lemma_bytes_grow(images@, index + 1, images@.len() as int);
            }
            match total.checked_add(images[index].allocated_bytes) {
                Some(sum) => {
                    total = sum;
                },
                None => {
                    let mut message = String::from_str("replacement ");
                    message.append(kind);
                    message.append(" project bytes overflow");
                    return Err(Error { code: ErrorCode::GpuAdmissionFailure, message });
                },
            }
        }
        let mut replacement = ResidentLedger::new();
        for index in 0..images.len()
            invariant
                *self == *old(self),
                old(self).wf(),
                replacement.wf(),
                distinct(images@, index as int),
                total == bytes_without(images@, None, images@.len() as int),
                forall|other: ResidentProject| #[trigger]
                    replacement.projects@.contains(other) <==> images@.take(
                        index as int,
                    ).contains(other),
        {
            let image: ResidentProject = images[index];
            let ghost seen = images@.take(index as int);
            match replacement.place_of(image.project) {
                Some(place) => {
                    proof {
                        let held = replacement.projects@[place as int];
                        assert(replacement.projects@.contains(held));
                        let i = choose|i: int| 0 <= i < seen.len() && seen[i] == held;
                        assert(images@[i].project == images@[index as int].project);
                        assert(!distinct(images@, images@.len() as int));
                    }
                    return Err(
                        Error::new(
                            ErrorCode::CorruptStorage,
                            "snapshot contains a duplicate project ID",
                        ),
                    );
                },
                None => {},
            }
            let ghost before = replacement.projects@;
            proof {
                assert forall|i: int| 0 <= i < index implies (#[trigger] images@[i]).project
                    != image.project by {
                    assert(seen[i] == images@[i]);
                    assert(seen.contains(images@[i]));
                    assert(before.contains(images@[i]));
                    let k = choose|k: int| 0 <= k < before.len() && before[k] == images@[i];
                    if images@[i].project == image.project {
                        assert(replacement.at(k, image.project));
                    }
                }
            }
            replacement.admit_project(image);
            proof {
                let more = images@.take(index + 1);
                assert(more =~= seen.push(image));
                assert forall|other: ResidentProject| #[trigger]
                    replacement.projects@.contains(other) <==> more.contains(other) by {
                    if more.contains(other) {
                        let i = choose|i: int| 0 <= i < more.len() && more[i] == other;
                        if i < index {
                            assert(seen[i] == other);
                            assert(seen.contains(other));
                            assert(images@[i].project != image.project);
                        }
                    }
                    if seen.contains(other) {
                        let i = choose|i: int| 0 <= i < seen.len() && seen[i] == other;
                        assert(more[i] == other);
                    }
                    assert(more[index as int] == image);
                }
            }
        }
        assert(images@.take(images@.len() as int) =~= images@);
        *self = replacement;
        Ok(total)
    }

    /// Sets the bookmark of every project.
    pub fn advance_bookmark(&mut self, bookmark: u64)
        requires
            old(self).wf(),
        ensures
            final(self).wf(),
            final(self).projects@ == Seq::new(
                old(self).projects@.len(),
                |i: int| ResidentProject { bookmark, ..old(self).projects@[i] },
            ),
    {
        let ghost before = *self;
        let total: usize = self.projects.len();
        for index in 0..total
            invariant
                before == *old(self),
                total == before.projects@.len(),
                self.projects@.len() == before.projects@.len(),
                forall|i: int|
                    0 <= i < index ==> #[trigger] self.projects@[i] == (ResidentProject {
                        bookmark,
                        ..before.projects@[i]
                    }),
                forall|i: int|
                    index <= i < before.projects@.len() ==> #[trigger] self.projects@[i]
                        == before.projects@[i],
        {
            let mut resident: ResidentProject = self.projects[index];
            resident.bookmark = bookmark;
            self.projects.set(index, resident);
        }
        proof {
            assert forall|i: int, j: int| 0 <= i < j < self.projects@.len() implies (
            #[trigger] self.projects@[i]).project < (#[trigger] self.projects@[j]).project by {
                assert(before.projects@[i].project < before.projects@[j].project);
            }
            assert(self.projects@ =~= Seq::new(
                before.projects@.len(),
                |i: int| ResidentProject { bookmark, ..before.projects@[i] },
            ));
        }
    }

    /// The greatest revision that is resident.
    pub fn resident_revision(&self) -> (revision: Option<u64>)
        ensures
            revision == newest(self.projects@, self.projects@.len() as int),
    {
        let mut revision: Option<u64> = None;
        for index in 0..self.projects.len()
            invariant
                revision == newest(self.projects@, index as int),
        {
            let next: u64 = self.projects[index].revision;
            revision = match revision {
                Some(current) => if current <= next {
                    Some(next)
                } else {
                    Some(current)
                },
                None => Some(next),
            };
        }
        revision
    }

    /// Checks that a project is resident in the generation that a program was made for.
    pub fn check_generation(
        &self,
        project: u128,
        bookmark: u64,
        revision: u64,
        layout_version: u32,
    ) -> (result: Result<ResidentProject>)
        requires
            self.wf(),
        ensures
            match result {
                Ok(resident) => resident.project == project && resident.bookmark == bookmark
                    && resident.revision == revision && resident.layout_version == layout_version
                    && self.projects@.contains(resident),
                Err(error) => {
                    &&& error.is(
                        ErrorCode::GpuAdmissionFailure,
                        if self.has(project) {
                            "resident quantifier program expected a different Metal bookmark, graph revision, or layout version"@
                        } else {
                            missing_message("Metal", project)
                        },
                    )
                    &&& forall|resident: ResidentProject| #[trigger]
                        self.projects@.contains(resident) && resident.project == project ==> !(
                        resident.bookmark == bookmark && resident.revision == revision
                            && resident.layout_version == layout_version)
                },
            },
    {
        let resident: ResidentProject = match self.project("Metal", project) {
            Ok(resident) => resident,
            Err(error) => {
                proof {
                    assert forall|other: ResidentProject| #[trigger]
                        self.projects@.contains(other) implies other.project != project by {
                        let i = choose|i: int|
                            0 <= i < self.projects@.len() && self.projects@[i] == other;
                        if other.project == project {
                            assert(self.at(i, project));
                        }
                    }
                }
                return Err(error);
            },
        };
        proof {
            let place = choose|place: int| #[trigger]
                self.at(place, project) && self.projects@[place] == resident;
            assert(self.projects@[place] == resident);
            assert forall|other: ResidentProject| #[trigger]
                self.projects@.contains(other) && other.project == project implies other
                == resident by {
                let i = choose|i: int| 0 <= i < self.projects@.len() && self.projects@[i] == other;
                if i < place {
                    assert(self.projects@[i].project < self.projects@[place].project);
                } else if place < i {
                    assert(self.projects@[place].project < self.projects@[i].project);
                }
            }
        }
        if resident.bookmark != bookmark || resident.revision != revision
            || resident.layout_version != layout_version {
            return Err(
                Error::new(
                    ErrorCode::GpuAdmissionFailure,
                    "resident quantifier program expected a different Metal bookmark, graph revision, or layout version",
                ),
            );
        }
        Ok(resident)
    }
}

/// No two of the first projects have one identity.
pub open spec fn distinct(projects: Seq<ResidentProject>, count: int) -> bool {
    forall|i: int, j: int|
        0 <= i < j < count ==> (#[trigger] projects[i]).project != (#[trigger] projects[j]).project
}

proof fn lemma_bytes_grow(projects: Seq<ResidentProject>, low: int, high: int)
    requires
        0 <= low <= high <= projects.len(),
    ensures
        0 <= bytes_without(projects, None, low) <= bytes_without(projects, None, high),
    decreases high,
{
    if low < high {
        lemma_bytes_grow(projects, low, high - 1);
    } else if low > 0 {
        lemma_bytes_grow(projects, low - 1, low - 1);
    }
}

proof fn lemma_absent(projects: Seq<ResidentProject>, project: u128, count: int)
    requires
        0 <= count <= projects.len(),
        forall|i: int| 0 <= i < count ==> (#[trigger] projects[i]).project != project,
    ensures
        bytes_without(projects, Some(project), count) == bytes_without(projects, None, count),
    decreases count,
{
    if count > 0 {
        lemma_absent(projects, project, count - 1);
    }
}

proof fn lemma_replaced(
    projects: Seq<ResidentProject>,
    place: int,
    resident: ResidentProject,
    count: int,
)
    requires
        0 <= place < projects.len(),
        0 <= count <= projects.len(),
        projects[place].project == resident.project,
        forall|i: int, j: int|
            0 <= i < j < projects.len() ==> (#[trigger] projects[i]).project < (
            #[trigger] projects[j]).project,
    ensures
        bytes_without(projects.update(place, resident), None, count) == bytes_without(
            projects,
            Some(resident.project),
            count,
        ) + if place < count {
            resident.allocated_bytes as int
        } else {
            0
        },
    decreases count,
{
    if count > 0 {
        lemma_replaced(projects, place, resident, count - 1);
        let last = count - 1;
        if last < place {
            assert(projects[last].project < projects[place].project);
        } else if place < last {
            assert(projects[place].project < projects[last].project);
        }
    }
}

proof fn lemma_inserted(
    projects: Seq<ResidentProject>,
    place: int,
    resident: ResidentProject,
    count: int,
)
    requires
        0 <= place <= projects.len(),
        0 <= count <= projects.len(),
        forall|i: int| 0 <= i < place ==> (#[trigger] projects[i]).project < resident.project,
        place < projects.len() ==> projects[place].project > resident.project,
        forall|i: int, j: int|
            0 <= i < j < projects.len() ==> (#[trigger] projects[i]).project < (
            #[trigger] projects[j]).project,
    ensures
        bytes_without(projects.insert(place, resident), None, count) == if count <= place {
            bytes_without(projects, Some(resident.project), count)
        } else {
            bytes_without(projects, Some(resident.project), count - 1) + resident.allocated_bytes
        },
        count == projects.len() ==> bytes_without(
            projects.insert(place, resident),
            None,
            count + 1,
        ) == bytes_without(projects, Some(resident.project), count) + resident.allocated_bytes,
    decreases count,
{
    let after = projects.insert(place, resident);
    if count > 0 {
        lemma_inserted(projects, place, resident, count - 1);
        let last = count - 1;
        if last < place {
            assert(after[last] == projects[last]);
        } else if last == place {
            assert(after[last] == resident);
        } else {
            assert(after[last] == projects[last - 1]);
            if place < last - 1 {
                assert(projects[place].project < projects[last - 1].project);
            }
        }
    }
    if count == projects.len() {
        assert(bytes_without(after, None, count + 1) == bytes_without(after, None, count)
            + after[count].allocated_bytes);
        if place < count {
            assert(after[count] == projects[count - 1]);
            if place < count - 1 {
                assert(projects[place].project < projects[count - 1].project);
            }
            assert(projects[count - 1].project != resident.project);
            assert(bytes_without(projects, Some(resident.project), count) == bytes_without(
                projects,
                Some(resident.project),
                count - 1,
            ) + projects[count - 1].allocated_bytes);
        } else {
            assert(after[count] == resident);
        }
    }
}

proof fn lemma_removed(projects: Seq<ResidentProject>, place: int, count: int)
    requires
        0 <= place < projects.len(),
        0 <= count <= projects.len(),
        forall|i: int, j: int|
            0 <= i < j < projects.len() ==> (#[trigger] projects[i]).project < (
            #[trigger] projects[j]).project,
    ensures
        bytes_without(projects, Some(projects[place].project), count) == bytes_without(
            projects.remove(place),
            None,
            if place < count {
                count - 1
            } else {
                count
            },
        ),
    decreases count,
{
    if count > 0 {
        lemma_removed(projects, place, count - 1);
        let last = count - 1;
        if last < place {
            assert(projects[last].project < projects[place].project);
            assert(projects.remove(place)[last] == projects[last]);
        } else if place < last {
            assert(projects[place].project < projects[last].project);
            assert(projects.remove(place)[last - 1] == projects[last]);
        }
    }
}

/// The bytes that are announced before a project is admitted are the bytes of the ledger after.
pub proof fn law_total_after_is_total(
    before: ResidentLedger,
    after: ResidentLedger,
    resident: ResidentProject,
    announced: usize,
)
    requires
        after.total(None) == resident.allocated_bytes + before.total(Some(resident.project)),
        announced == saturated(resident.allocated_bytes + before.total(Some(resident.project))),
    ensures
        announced == saturated(after.total(None)),
{
}

/// The newest revision is that of some project, and no project has a newer one.
pub proof fn law_newest_revision(projects: Seq<ResidentProject>, count: int, place: int)
    requires
        0 <= count <= projects.len(),
    ensures
        count == 0 <==> newest(projects, count) is None,
        0 <= place < count ==> (newest(projects, count) matches Some(revision)
            && projects[place].revision <= revision),
        newest(projects, count) matches Some(revision) ==> exists|i: int|
            0 <= i < count && (#[trigger] projects[i]).revision == revision,
    decreases count,
{
    if count > 0 {
        law_newest_revision(projects, count - 1, place);
        if let Some(earlier) = newest(projects, count - 1) {
            let i = choose|i: int|
                0 <= i < count - 1 && (#[trigger] projects[i]).revision == earlier;
            assert(projects[i].revision == earlier);
        }
        assert(projects[count - 1].revision == projects[count - 1].revision);
    }
}

/// What is resident without a project is what is resident less what the project takes.
pub proof fn law_totals_without_a_project(ledger: ResidentLedger, place: int)
    requires
        ledger.wf(),
        0 <= place < ledger.projects@.len(),
    ensures
        ledger.total(None) == ledger.total(Some(ledger.projects@[place].project))
            + ledger.projects@[place].allocated_bytes,
{
    lemma_without_one(ledger.projects@, place, ledger.projects@.len() as int);
}

proof fn lemma_without_one(projects: Seq<ResidentProject>, place: int, count: int)
    requires
        0 <= place < projects.len(),
        0 <= count <= projects.len(),
        forall|i: int, j: int|
            0 <= i < j < projects.len() ==> (#[trigger] projects[i]).project < (
            #[trigger] projects[j]).project,
    ensures
        bytes_without(projects, None, count) == bytes_without(
            projects,
            Some(projects[place].project),
            count,
        ) + if place < count {
            projects[place].allocated_bytes as int
        } else {
            0
        },
    decreases count,
{
    if count > 0 {
        lemma_without_one(projects, place, count - 1);
        if place < count - 1 {
            assert(projects[place].project < projects[count - 1].project);
        } else if count - 1 < place {
            assert(projects[count - 1].project < projects[place].project);
        }
    }
}

} // verus!
