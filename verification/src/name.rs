//! Domain names on the wire: what a sequence of bytes means as a name, and
//! which bytes a name is written as.

use vstd::prelude::*;
use crate::error::DnsError;

verus! {

/// How many compression pointers one name may follow.
pub const MAX_JUMPS: usize = 5;

/// The label separator of the dotted form, `.`.
pub const DOT: u8 = 0x2E;

/// The longest label that can be written.
pub const MAX_LABEL: usize = 63;

/// A length byte with both top bits set starts a two-byte pointer.
pub open spec fn is_pointer(b: u8) -> bool {
    b >= 0xC0
}

/// The offset that the pointer `hi lo` names: the low six bits of `hi`
/// followed by the eight bits of `lo`.
pub open spec fn pointer_target(hi: u8, lo: u8) -> int {
    (hi as int - 0xC0) * 256 + lo as int
}

/// Where the name field that starts at `at` ends: just past its terminating
/// zero byte, or just past the first pointer in it. `None` where the field
/// runs off the end of `bytes` before either is found.
pub open spec fn name_end(bytes: Seq<u8>, at: int) -> Option<int>
    decreases bytes.len() - at,
{
    if at < 0 || at >= bytes.len() {
        None
    } else if is_pointer(bytes[at]) {
        if at + 1 < bytes.len() {
            Some(at + 2)
        } else {
            None
        }
    } else if bytes[at] == 0 {
        Some(at + 1)
    } else if at + 1 + bytes[at] <= bytes.len() {
        name_end(bytes, at + 1 + bytes[at])
    } else {
        None
    }
}

/// What following a name through `bytes` finds: the labels met, in order,
/// and the error that stopped the walk, if one did.
pub struct NameWalk {
    pub labels: Seq<Seq<u8>>,
    pub error: Option<DnsError>,
}

/// The walk through the name at `at`, `jumps` pointers having been followed
/// already. A pointer moves the walk to its target, a label moves it past
/// the label, a zero byte ends it. The walk fails where it would read
/// outside `bytes`, and once more than `MAX_JUMPS` pointers were followed.
pub open spec fn walk(bytes: Seq<u8>, at: int, jumps: int) -> NameWalk
    decreases MAX_JUMPS + 1 - jumps, bytes.len() - at,
{
    if jumps > MAX_JUMPS {
        NameWalk { labels: Seq::empty(), error: Some(DnsError::PointerLoopLimit) }
    } else if at < 0 || at >= bytes.len() {
        NameWalk { labels: Seq::empty(), error: Some(DnsError::OutOfBounds) }
    } else if is_pointer(bytes[at]) {
        if at + 1 < bytes.len() {
            walk(bytes, pointer_target(bytes[at], bytes[at + 1]), jumps + 1)
        } else {
            NameWalk { labels: Seq::empty(), error: Some(DnsError::OutOfBounds) }
        }
    } else if bytes[at] == 0 {
        NameWalk { labels: Seq::empty(), error: None }
    } else if at + 1 + bytes[at] <= bytes.len() {
        let rest = walk(bytes, at + 1 + bytes[at], jumps);
        NameWalk {
            labels: seq![bytes.subrange(at + 1, at + 1 + bytes[at])] + rest.labels,
            error: rest.error,
        }
    } else {
        NameWalk { labels: Seq::empty(), error: Some(DnsError::OutOfBounds) }
    }
}

/// The text that `String::from_utf8_lossy` makes of `bytes`.
pub uninterp spec fn utf8_lossy(bytes: Seq<u8>) -> Seq<char>;

/// The text that `str::to_lowercase` makes of `text`.
pub uninterp spec fn lowercase(text: Seq<char>) -> Seq<char>;

/// A label as it appears in a decoded name.
pub open spec fn label_text(label: Seq<u8>) -> Seq<char> {
    lowercase(utf8_lossy(label))
}

/// The labels' texts joined by dots.
pub open spec fn dotted(labels: Seq<Seq<u8>>) -> Seq<char>
    decreases labels.len(),
{
    if labels.len() == 0 {
        Seq::empty()
    } else if labels.len() == 1 {
        label_text(labels[0])
    } else {
        dotted(labels.drop_last()) + seq!['.'] + label_text(labels.last())
    }
}

/// The end of the label of `name` that starts at `from`: the index of the
/// next dot, or the length of `name`.
pub open spec fn label_end(name: Seq<u8>, from: int) -> int
    decreases name.len() - from,
{
    if from < 0 || from >= name.len() || name[from] == DOT {
        from
    } else {
        label_end(name, from + 1)
    }
}

/// The labels of `name` from index `from` on: the runs of bytes between
/// dots. A trailing dot is followed by an empty label.
pub open spec fn labels_from(name: Seq<u8>, from: int) -> Seq<Seq<u8>>
    decreases name.len() - from,
{
    let end = label_end(name, from);
    if from < 0 || end < from {
        Seq::empty()
    } else if end >= name.len() {
        seq![name.subrange(from, end)]
    } else {
        seq![name.subrange(from, end)] + labels_from(name, end + 1)
    }
}

/// The bytes that writing a name produces, and whether the writing stopped
/// at a label that is too long.
pub struct Emission {
    pub bytes: Seq<u8>,
    pub too_long: bool,
}

impl Emission {
    /// The emission of plain bytes, which always succeeds.
    pub open spec fn plain(bytes: Seq<u8>) -> Emission {
        Emission { bytes, too_long: false }
    }

    /// This emission followed by `next`. Nothing follows an emission that
    /// stopped at a label that is too long.
    pub open spec fn followed_by(self, next: Emission) -> Emission {
        if self.too_long {
            self
        } else {
            Emission { bytes: self.bytes + next.bytes, too_long: next.too_long }
        }
    }
}

/// The wire form of the labels of `name` from index `from` on: each label
/// behind its length, then a zero byte. Emission stops in front of the first
/// label of more than `MAX_LABEL` bytes.
pub open spec fn emission_from(name: Seq<u8>, from: int) -> Emission
    decreases name.len() - from,
{
    let end = label_end(name, from);
    if from < 0 || end < from {
        Emission { bytes: Seq::empty(), too_long: false }
    } else if end - from > MAX_LABEL {
        Emission { bytes: Seq::empty(), too_long: true }
    } else if end >= name.len() {
        Emission {
            bytes: seq![(end - from) as u8] + name.subrange(from, end) + seq![0u8],
            too_long: false,
        }
    } else {
        let rest = emission_from(name, end + 1);
        Emission {
            bytes: seq![(end - from) as u8] + name.subrange(from, end) + rest.bytes,
            too_long: rest.too_long,
        }
    }
}

/// The wire form of the name whose dotted form has the UTF-8 bytes `name`.
/// The empty name is the root: a single zero byte.
pub open spec fn name_emission(name: Seq<u8>) -> Emission {
    if name.len() == 0 {
        Emission { bytes: seq![0u8], too_long: false }
    } else {
        emission_from(name, 0)
    }
}

/// A label ends at the first dot behind its start, or at the end of the
/// name.
pub proof fn lemma_label_end_bounds(name: Seq<u8>, from: int)
    requires
        0 <= from <= name.len(),
    ensures
        from <= label_end(name, from) <= name.len(),
        label_end(name, from) < name.len() ==> name[label_end(name, from)] == DOT,
        forall|i: int| from <= i < label_end(name, from) ==> name[i] != DOT,
    decreases name.len() - from,
{
    if from < name.len() && name[from] != DOT {
        lemma_label_end_bounds(name, from + 1);
    }
}


/// From `from`, labels and nothing else lead to `to`: no pointer and no
/// zero byte is met on the way.
pub open spec fn labels_lead(bytes: Seq<u8>, from: int, to: int) -> bool
    decreases to - from,
{
    if from == to {
        true
    } else if from < 0 || from >= bytes.len() || from > to {
        false
    } else if is_pointer(bytes[from]) || bytes[from] == 0 || from + 1 + bytes[from] > to {
        false
    } else {
        labels_lead(bytes, from + 1 + bytes[from], to)
    }
}

/// The end of a name field lies inside the buffer, and is reached over
/// labels alone: it is the place just behind the zero byte that closes the
/// name, or just behind the first pointer of the name.
pub proof fn lemma_name_end_is_behind_zero_or_first_pointer(bytes: Seq<u8>, at: int)
    requires
        name_end(bytes, at) is Some,
    ensures
        ({
            let end = name_end(bytes, at)->Some_0;
            &&& at < end <= bytes.len()
            &&& (labels_lead(bytes, at, end - 1) && bytes[end - 1] == 0) || (labels_lead(
                bytes,
                at,
                end - 2,
            ) && is_pointer(bytes[end - 2]))
        }),
    decreases bytes.len() - at,
{
    if !is_pointer(bytes[at]) && bytes[at] != 0 {
        lemma_name_end_is_behind_zero_or_first_pointer(bytes, at + 1 + bytes[at]);
    }
}

/// A name that can be walked to its end has a name field with an end.
pub proof fn lemma_walked_name_has_end(bytes: Seq<u8>, at: int, jumps: int)
    requires
        walk(bytes, at, jumps).error is None,
    ensures
        name_end(bytes, at) is Some,
    decreases bytes.len() - at,
{
    if jumps <= MAX_JUMPS && 0 <= at < bytes.len() && !is_pointer(bytes[at]) && bytes[at] != 0 {
        lemma_walked_name_has_end(bytes, at + 1 + bytes[at], jumps);
    }
}

/// Every offset of `trap` holds a label that ends at another offset of
/// `trap`, or a pointer to one. A walk that enters such a set never leaves
/// it: the set holds a compression cycle.
pub open spec fn is_trap(bytes: Seq<u8>, trap: Set<int>) -> bool {
    forall|at: int| #[trigger]
        trap.contains(at) ==> 0 <= at < bytes.len() && if is_pointer(bytes[at]) {
            at + 1 < bytes.len() && trap.contains(pointer_target(bytes[at], bytes[at + 1]))
        } else {
            bytes[at] != 0 && trap.contains(at + 1 + bytes[at])
        }
}

/// A walk that starts on a compression cycle, or runs into one, ends with
/// the pointer limit: it neither succeeds nor goes on for ever.
pub proof fn lemma_cycle_is_refused(bytes: Seq<u8>, trap: Set<int>, at: int, jumps: int)
    requires
        is_trap(bytes, trap),
        trap.contains(at),
    ensures
        walk(bytes, at, jumps).error == Some(DnsError::PointerLoopLimit),
    decreases MAX_JUMPS + 1 - jumps, bytes.len() - at,
{
    if jumps <= MAX_JUMPS {
        if is_pointer(bytes[at]) {
            lemma_cycle_is_refused(bytes, trap, pointer_target(bytes[at], bytes[at + 1]), jumps + 1);
        } else {
            assert(trap.contains(at + 1 + bytes[at]));
            lemma_cycle_is_refused(bytes, trap, at + 1 + bytes[at], jumps);
        }
    }
}

/// A pointer that points at itself is refused.
pub proof fn lemma_self_pointer_is_refused(bytes: Seq<u8>, at: int)
    requires
        0 <= at,
        at + 1 < bytes.len(),
        is_pointer(bytes[at]),
        pointer_target(bytes[at], bytes[at + 1]) == at,
    ensures
        walk(bytes, at, 0).error == Some(DnsError::PointerLoopLimit),
{
    let trap = set![at];
    assert(is_trap(bytes, trap));
    lemma_cycle_is_refused(bytes, trap, at, 0);
}

/// One of the labels of `name` from index `from` on has more than
/// `MAX_LABEL` bytes.
pub open spec fn has_long_label(name: Seq<u8>, from: int) -> bool
    decreases name.len() - from,
{
    let end = label_end(name, from);
    if from < 0 || end < from {
        false
    } else if end - from > MAX_LABEL {
        true
    } else if end >= name.len() {
        false
    } else {
        has_long_label(name, end + 1)
    }
}

/// Emission stops at a label exactly where the name has a label that is
/// too long.
pub proof fn lemma_long_label_stops_emission(name: Seq<u8>, from: int)
    requires
        0 <= from <= name.len(),
    ensures
        emission_from(name, from).too_long == has_long_label(name, from),
    decreases name.len() - from,
{
    lemma_label_end_bounds(name, from);
    let end = label_end(name, from);
    if end - from <= MAX_LABEL && end < name.len() {
        lemma_long_label_stops_emission(name, end + 1);
    }
}

/// Written out, the labels of a name without a label that is too long take
/// two bytes more than the name: a length byte in place of each dot, one
/// more for the first label, and the closing zero.
pub proof fn lemma_emission_len(name: Seq<u8>, from: int)
    requires
        0 <= from <= name.len(),
        !has_long_label(name, from),
    ensures
        emission_from(name, from).bytes.len() == name.len() - from + 2,
    decreases name.len() - from,
{
    lemma_label_end_bounds(name, from);
    let end = label_end(name, from);
    if end < name.len() {
        lemma_emission_len(name, end + 1);
    }
}

/// Writing a single label of more than `MAX_LABEL` bytes fails with
/// `LabelTooLong`, and writes nothing, whatever room is left.
pub proof fn lemma_long_label_is_refused(label: Seq<u8>)
    requires
        label.len() > MAX_LABEL,
        forall|i: int| 0 <= i < label.len() ==> label[i] != DOT,
    ensures
        name_emission(label).too_long,
        name_emission(label).bytes.len() == 0,
{
    lemma_no_dot_is_one_label(label, 0);
}

/// Bytes without a dot are one label.
pub proof fn lemma_no_dot_is_one_label(name: Seq<u8>, from: int)
    requires
        0 <= from <= name.len(),
        forall|i: int| from <= i < name.len() ==> name[i] != DOT,
    ensures
        label_end(name, from) == name.len(),
    decreases name.len() - from,
{
    if from < name.len() {
        lemma_no_dot_is_one_label(name, from + 1);
    }
}

/// A name of which a label is too long is never written whole: its emission
/// stops at that label.
pub proof fn lemma_name_with_long_label_is_refused(name: Seq<u8>)
    requires
        has_long_label(name, 0),
    ensures
        name_emission(name).too_long,
{
    lemma_long_label_stops_emission(name, 0);
    if name.len() == 0 {
        assert(label_end(name, 0) == 0);
    }
}

/// Every label of `name` from index `from` on has at least one byte and at
/// most `MAX_LABEL`.
pub open spec fn labels_fit(name: Seq<u8>, from: int) -> bool
    decreases name.len() - from,
{
    let end = label_end(name, from);
    if from < 0 || end < from {
        false
    } else if end - from < 1 || end - from > MAX_LABEL {
        false
    } else if end >= name.len() {
        true
    } else {
        labels_fit(name, end + 1)
    }
}

/// The labels of a name that can be written and read back: none for the
/// empty name, else the runs of bytes between its dots.
pub open spec fn name_labels(name: Seq<u8>) -> Seq<Seq<u8>> {
    if name.len() == 0 {
        Seq::empty()
    } else {
        labels_from(name, 0)
    }
}

/// The name is empty, or each of its labels has between one and
/// `MAX_LABEL` bytes.
pub open spec fn name_fits(name: Seq<u8>) -> bool {
    name.len() == 0 || labels_fit(name, 0)
}

/// The labels of `name` from `from` on, written out, are walked as those
/// labels, without an error, and the name field ends where the written
/// bytes end.
pub proof fn lemma_labels_round_trip(
    name: Seq<u8>,
    from: int,
    bytes: Seq<u8>,
    at: int,
    jumps: int,
)
    requires
        0 <= from <= name.len(),
        labels_fit(name, from),
        0 <= at,
        at + emission_from(name, from).bytes.len() <= bytes.len(),
        forall|i: int|
            0 <= i < emission_from(name, from).bytes.len() ==> bytes[at + i] == emission_from(
                name,
                from,
            ).bytes[i],
        0 <= jumps <= MAX_JUMPS,
    ensures
        !emission_from(name, from).too_long,
        walk(bytes, at, jumps).labels == labels_from(name, from),
        walk(bytes, at, jumps).error is None,
        name_end(bytes, at) == Some(at + emission_from(name, from).bytes.len()),
    decreases name.len() - from,
{
    lemma_label_end_bounds(name, from);
    let end = label_end(name, from);
    let len = end - from;
    let label = name.subrange(from, end);
    let whole = emission_from(name, from).bytes;
    assert(whole[0] == len as u8);
    assert(bytes[at + 0] == whole[0]);
    assert(bytes[at] == len);
    assert(bytes.subrange(at + 1, at + 1 + len) =~= label) by {
        assert forall|i: int| 0 <= i < len implies bytes[at + 1 + i] == label[i] by {
            assert(whole[1 + i] == label[i]);
            assert(bytes[at + (1 + i)] == whole[1 + i]);
        }
    }
    if end >= name.len() {
        assert(whole.len() == len + 2);
        assert(whole[len + 1] == 0);
        assert(bytes[at + (len + 1)] == whole[len + 1]);
        assert(walk(bytes, at + 1 + len, jumps).labels =~= Seq::<Seq<u8>>::empty());
        assert(walk(bytes, at, jumps).labels =~= seq![label]);
        assert(name_end(bytes, at + 1 + len) == Some(at + len + 2));
        assert(name_end(bytes, at) == name_end(bytes, at + 1 + len));
    } else {
        let rest = emission_from(name, end + 1).bytes;
        assert(whole =~= seq![len as u8] + label + rest);
        assert forall|i: int| 0 <= i < rest.len() implies bytes[at + 1 + len + i] == rest[i] by {
            assert(whole[1 + len + i] == rest[i]);
            assert(bytes[at + (1 + len + i)] == whole[1 + len + i]);
        }
        lemma_labels_round_trip(name, end + 1, bytes, at + 1 + len, jumps);
        assert(whole.len() == 1 + len + rest.len());
        assert(name_end(bytes, at) == name_end(bytes, at + 1 + len));
    }
}

/// A name that fits, written out, is walked as its labels, without an
/// error, and the name field ends where the written bytes end.
pub proof fn lemma_name_round_trip(name: Seq<u8>, bytes: Seq<u8>, at: int)
    requires
        name_fits(name),
        0 <= at,
        at + name_emission(name).bytes.len() <= bytes.len(),
        forall|i: int|
            0 <= i < name_emission(name).bytes.len() ==> bytes[at + i] == name_emission(
                name,
            ).bytes[i],
    ensures
        !name_emission(name).too_long,
        walk(bytes, at, 0) == (NameWalk { labels: name_labels(name), error: None }),
        name_end(bytes, at) == Some(at + name_emission(name).bytes.len()),
{
    if name.len() == 0 {
        assert(name_emission(name).bytes[0] == 0);
        assert(bytes[at + 0] == 0);
    } else {
        lemma_labels_round_trip(name, 0, bytes, at, 0);
    }
}

} // verus!
