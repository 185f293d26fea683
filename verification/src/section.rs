//! Sections and their weekly time slots, and the overlap predicate that
//! decides whether two sections conflict.
use vstd::prelude::*;

verus! {

/// A day of the week on which a time slot can be placed.
#[derive(Clone, Copy, PartialEq, Eq, Structural, Debug)]
pub enum Weekday {
    Mon,
    Tue,
    Wed,
    Thu,
    Fri,
    Sat,
    Sun,
}

/// One weekly meeting: a weekday plus a half-open time interval
/// `[start_sec, end_sec)`, measured in seconds since midnight.
///
/// `start_sec < end_sec` is a data-quality expectation of the input
/// collaborator; this engine tolerates malformed slots silently (an empty or
/// reversed interval simply never intersects anything the half-open rule
/// rejects).
#[derive(Clone, Copy, PartialEq, Eq, Structural, Debug)]
pub struct TimeSlot {
    pub weekday: Weekday,
    pub start_sec: u32,
    pub end_sec: u32,
}

/// Two slots conflict iff they fall on the same weekday and their half-open
/// intervals intersect: touching endpoints do not count.
pub open spec fn slot_conflict(a: TimeSlot, b: TimeSlot) -> bool {
    a.weekday == b.weekday && a.start_sec < b.end_sec && b.start_sec < a.end_sec
}

/// One offered instance of a course: a course name, an identifying code, an
/// instructor, and the weekly slots at which it meets.
pub struct Section {
    pub name: String,
    pub id: String,
    pub instructor: String,
    pub slots: Vec<TimeSlot>,
}

/// The mathematical model of a `Section`: every string as a character
/// sequence, the slot list as a sequence.
#[verifier::ext_equal]
pub ghost struct SectionView {
    pub name: Seq<char>,
    pub id: Seq<char>,
    pub instructor: Seq<char>,
    pub slots: Seq<TimeSlot>,
}

impl View for Section {
    type V = SectionView;

    open spec fn view(&self) -> SectionView {
        SectionView {
            name: self.name@,
            id: self.id@,
            instructor: self.instructor@,
            slots: self.slots@,
        }
    }
}

impl DeepView for Section {
    type V = SectionView;

    open spec fn deep_view(&self) -> SectionView {
        self.view()
    }
}

impl Clone for Section {
    fn clone(&self) -> (r: Self)
        ensures
            r@ == self@,
    {
        Section {
            name: self.name.clone(),
            id: self.id.clone(),
            instructor: self.instructor.clone(),
            slots: self.slots.clone(),
        }
    }
}

/// Two sections overlap iff some slot of one conflicts with some slot of the
/// other: the full cross-product of the two slot lists is consulted.
pub open spec fn sec_overlap(a: SectionView, b: SectionView) -> bool {
    exists|i: int, j: int|
        0 <= i < a.slots.len() && 0 <= j < b.slots.len() && slot_conflict(
            a.slots[i],
            b.slots[j],
        )
}

/// Overlap is symmetric: the order of the two sections never matters.
pub proof fn lemma_overlap_symmetric(a: SectionView, b: SectionView)
    ensures
        sec_overlap(a, b) == sec_overlap(b, a),
{
    if sec_overlap(a, b) {
        let (i, j) = choose|i: int, j: int|
            0 <= i < a.slots.len() && 0 <= j < b.slots.len() && slot_conflict(
                a.slots[i],
                b.slots[j],
            );
        assert(slot_conflict(b.slots[j], a.slots[i]));
    }
    if sec_overlap(b, a) {
        let (i, j) = choose|i: int, j: int|
            0 <= i < b.slots.len() && 0 <= j < a.slots.len() && slot_conflict(
                b.slots[i],
                a.slots[j],
            );
        assert(slot_conflict(a.slots[j], b.slots[i]));
    }
}

/// Decides whether two sections conflict: some slot of `a` and some slot of
/// `b` share a weekday and their half-open intervals intersect.
pub fn overlaps(a: &Section, b: &Section) -> (r: bool)
    ensures
        r == sec_overlap(a@, b@),
{
    let mut i: usize = 0;
    while i < a.slots.len()
        invariant
            0 <= i <= a.slots.len(),
            forall|ii: int, jj: int|
                0 <= ii < i && 0 <= jj < b@.slots.len() ==> !slot_conflict(
                    a@.slots[ii],
                    b@.slots[jj],
                ),
        decreases a.slots.len() - i,
    {
        let sa = a.slots[i];
        let mut j: usize = 0;
        while j < b.slots.len()
            invariant
                0 <= i < a.slots.len(),
                0 <= j <= b.slots.len(),
                sa == a@.slots[i as int],
                forall|jj: int| 0 <= jj < j ==> !slot_conflict(a@.slots[i as int], b@.slots[jj]),
            decreases b.slots.len() - j,
        {
            let sb = b.slots[j];
            if sa.weekday == sb.weekday && sa.start_sec < sb.end_sec && sb.start_sec < sa.end_sec {
                assert(slot_conflict(a@.slots[i as int], b@.slots[j as int]));
                return true;
            }
            j += 1;
        }
        i += 1;
    }
    false
}

} // verus!
