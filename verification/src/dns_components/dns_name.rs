//! Domain names: sequences of length-prefixed labels, with compression
//! pointers expanded while decoding.

use vstd::prelude::*;
use vstd::string::StringSliceAdditionalSpecFns;
use crate::cursor::{bytes_at, holds_start_of, push_all, Cursor};
use crate::error::DnsError;

verus! {

/// How many compression pointers one decode follows before it gives up with
/// `PointerLoop`.
///
/// A buffer whose pointers lead back to themselves would otherwise be
/// followed forever; see [`lemma_pointer_cycle_fails`].
pub const MAX_POINTER_HOPS: usize = 128;

/// The longest label that can be encoded: the length byte has six bits for
/// it.
pub const MAX_LABEL_LEN: usize = 63;

/// One label of a name: the bytes between two dots of a hostname.
#[derive(PartialEq, Eq, Debug, Clone, Hash)]
pub struct DnsLabel {
    pub label: Vec<u8>,
}

impl View for DnsLabel {
    type V = Seq<u8>;

    open spec fn view(&self) -> Seq<u8> {
        self.label@
    }
}

/// A domain name: its labels in order, without the empty root label that
/// ends it on the wire.
///
/// Two names are the same when their labels are, however each was written on
/// the wire.
#[derive(PartialEq, Eq, Debug, Clone, Hash)]
pub struct DnsName {
    pub labels: Vec<DnsLabel>,
}

/// The labels of a vector of labels, each as its bytes.
pub open spec fn labels_view(labels: Seq<DnsLabel>) -> Seq<Seq<u8>> {
    labels.map_values(|l: DnsLabel| l@)
}

impl View for DnsName {
    type V = Seq<Seq<u8>>;

    open spec fn view(&self) -> Seq<Seq<u8>> {
        labels_view(self.labels@)
    }
}

/// Whether a length byte announces a compression pointer: its top two bits
/// are set.
pub open spec fn is_pointer(b: u8) -> bool {
    b >= 0xC0
}

/// The 14-bit offset that a pointer's two bytes hold.
pub open spec fn pointer_target(hi: u8, lo: u8) -> int {
    (hi - 0xC0) * 256 + lo
}

/// What decoding a name at `pos` yields when at most `hops` pointers may be
/// followed: the labels and the position right after the name's own bytes, or
/// the first failure met on the way.
///
/// A zero byte ends the name. A pointer is followed inside the same buffer
/// and ends the name too: the position after it is the position after its two
/// bytes. A byte of at most 63 is the length of a label that follows it. Any
/// other byte has one of its top two bits set without being a pointer, and
/// is an `InvalidField`.
pub open spec fn name_at(data: Seq<u8>, pos: int, hops: nat) -> Result<(Seq<Seq<u8>>, int), DnsError>
    decreases hops, data.len() - pos,
{
    if pos < 0 || pos >= data.len() {
        Err(DnsError::Truncated)
    } else if data[pos] == 0 {
        Ok((Seq::empty(), pos + 1))
    } else if is_pointer(data[pos]) {
        if pos + 1 >= data.len() {
            Err(DnsError::Truncated)
        } else if hops == 0 {
            Err(DnsError::PointerLoop)
        } else {
            match name_at(data, pointer_target(data[pos], data[pos + 1]), (hops - 1) as nat) {
                Ok((labels, _)) => Ok((labels, pos + 2)),
                Err(e) => Err(e),
            }
        }
    } else if data[pos] > MAX_LABEL_LEN {
        Err(DnsError::InvalidField)
    } else {
        let n = data[pos] as int;
        if pos + 1 + n > data.len() {
            Err(DnsError::Truncated)
        } else {
            match name_at(data, pos + 1 + n, hops) {
                Ok((rest, end)) => Ok((seq![bytes_at(data, pos + 1, n as nat)] + rest, end)),
                Err(e) => Err(e),
            }
        }
    }
}

/// The result of a decode that has already read `prefix` and, if `end` is
/// set, has already passed the name's last own byte.
spec fn graft(
    prefix: Seq<Seq<u8>>,
    end: Option<int>,
    rest: Result<(Seq<Seq<u8>>, int), DnsError>,
) -> Result<(Seq<Seq<u8>>, int), DnsError> {
    match rest {
        Ok((labels, e)) => Ok(
            (
                prefix + labels,
                match end {
                    Some(x) => x,
                    None => e,
                },
            ),
        ),
        Err(e) => Err(e),
    }
}

/// Decodes the name at `start`, following at most `budget` pointers. Every
/// label of a name that decodes has between 1 and 63 bytes.
pub fn labels_from(data: &[u8], start: usize, budget: usize) -> (r: Result<
    (Vec<DnsLabel>, usize),
    DnsError,
>)
    ensures
        match r {
            Ok((labels, end)) => {
                &&& name_at(data@, start as int, budget as nat) == Ok::<
                    (Seq<Seq<u8>>, int),
                    DnsError,
                >((labels_view(labels@), end as int))
                &&& valid_name(labels_view(labels@))
            },
            Err(e) => name_at(data@, start as int, budget as nat) == Err::<
                (Seq<Seq<u8>>, int),
                DnsError,
            >(e),
        },
{
    let len = data.len();
    let mut labels: Vec<DnsLabel> = Vec::new();
    let mut pos: usize = start;
    let mut hops: usize = budget;
    let mut end: Option<usize> = None;
    loop
        invariant
            len == data@.len(),
            name_at(data@, start as int, budget as nat) == graft(
                labels_view(labels@),
                match end {
                    Some(x) => Some(x as int),
                    None => None,
                },
                name_at(data@, pos as int, hops as nat),
            ),
        decreases hops, len - pos,
    {
        if pos >= len {
            return Err(DnsError::Truncated);
        }
        let b = data[pos];
        if b == 0 {
            let after = match end {
                Some(x) => x,
                None => pos + 1,
            };
            proof {
                assert(labels_view(labels@) + Seq::<Seq<u8>>::empty() == labels_view(labels@));
                lemma_decoded_name_is_valid(data@, start as int, budget as nat);
            }
            return Ok((labels, after));
        }
        if b >= 0xC0 {
            if pos + 1 >= len {
                return Err(DnsError::Truncated);
            }
            if hops == 0 {
                return Err(DnsError::PointerLoop);
            }
            let target: usize = (b - 0xC0) as usize * 256 + data[pos + 1] as usize;
            if end.is_none() {
                end = Some(pos + 2);
            }
            pos = target;
            hops = hops - 1;
        } else {
            let n = b as usize;
            if n > MAX_LABEL_LEN {
                return Err(DnsError::InvalidField);
            }
            if n > len - pos - 1 {
                return Err(DnsError::Truncated);
            }
            let mut body: Vec<u8> = Vec::new();
            let mut i: usize = 0;
            while i < n
                invariant
                    i <= n,
                    pos + 1 + n <= len,
                    len == data@.len(),
                    body@ == bytes_at(data@, pos + 1, i as nat),
                decreases n - i,
            {
                body.push(data[pos + 1 + i]);
                i = i + 1;
            }
            let ghost before = labels_view(labels@);
            labels.push(DnsLabel { label: body });
            proof {
                assert(labels_view(labels@) == before.push(body@));
                let rest = name_at(data@, pos + 1 + n, hops as nat);
                if let Ok((tail, _)) = rest {
                    assert(before + (seq![body@] + tail) == before.push(body@) + tail);
                }
            }
            pos = pos + 1 + n;
        }
    }
}

/// The wire form of one label: its length, then its bytes.
pub open spec fn label_bytes(label: Seq<u8>) -> Seq<u8> {
    seq![label.len() as u8] + label
}

/// The wire form of a name without compression: each label in turn, then a
/// zero byte.
pub open spec fn name_bytes(labels: Seq<Seq<u8>>) -> Seq<u8>
    decreases labels.len(),
{
    if labels.len() == 0 {
        seq![0u8]
    } else {
        label_bytes(labels[0]) + name_bytes(labels.drop_first())
    }
}

/// Whether every label fits the six bits of a length byte.
pub open spec fn encodable(labels: Seq<Seq<u8>>) -> bool {
    forall|i: int| 0 <= i < labels.len() ==> (#[trigger] labels[i]).len() <= MAX_LABEL_LEN
}

/// Whether a name survives a round trip through the wire: every label has
/// between 1 and 63 bytes. (An empty label would be read back as the end of
/// the name.)
pub open spec fn valid_name(labels: Seq<Seq<u8>>) -> bool {
    forall|i: int| 0 <= i < labels.len() ==> 1 <= (#[trigger] labels[i]).len() <= MAX_LABEL_LEN
}

/// The labels of a dotted hostname, read byte by byte: a dot starts a new
/// label, any other byte extends the last one.
///
/// The empty string has one empty label, and so has the part after a
/// trailing dot.
pub open spec fn split_dots(s: Seq<u8>) -> Seq<Seq<u8>>
    decreases s.len(),
{
    if s.len() == 0 {
        seq![Seq::empty()]
    } else {
        let before = split_dots(s.drop_last());
        if s.last() == 0x2E {
            before.push(Seq::empty())
        } else {
            before.drop_last().push(before.last().push(s.last()))
        }
    }
}

/// The labels written one after the other with a dot between each two.
pub open spec fn join_dots(labels: Seq<Seq<u8>>) -> Seq<u8>
    decreases labels.len(),
{
    if labels.len() == 0 {
        Seq::empty()
    } else if labels.len() == 1 {
        labels[0]
    } else {
        join_dots(labels.drop_last()) + seq![0x2Eu8] + labels.last()
    }
}

/// Whether no label holds a dot.
pub open spec fn dot_free(labels: Seq<Seq<u8>>) -> bool {
    forall|i: int, j: int|
        0 <= i < labels.len() && 0 <= j < labels[i].len() ==> (#[trigger] labels[i][j]) != 0x2E
}

impl DnsLabel {
    /// A label that holds `label`.
    pub fn new(label: Vec<u8>) -> (r: Self)
        ensures
            r@ == label@,
    {
        Self { label }
    }

    /// Whether two labels hold the same bytes.
    pub fn same_as(&self, other: &DnsLabel) -> (same: bool)
        ensures
            same == (self@ == other@),
    {
        if self.label.len() != other.label.len() {
            return false;
        }
        let mut i: usize = 0;
        while i < self.label.len()
            invariant
                i <= self.label.len(),
                self.label.len() == other.label.len(),
                forall|j: int| 0 <= j < i ==> self@[j] == other@[j],
            decreases self.label.len() - i,
        {
            if self.label[i] != other.label[i] {
                return false;
            }
            i = i + 1;
        }
        assert(self@ =~= other@);
        true
    }

    /// A label with the same bytes.
    pub fn duplicate(&self) -> (copy: Self)
        ensures
            copy@ == self@,
    {
        let mut label: Vec<u8> = Vec::new();
        push_all(&mut label, self.label.as_slice());
        assert(label@ == self@);
        Self { label }
    }

    /// The wire form of the label: its length byte, then its bytes.
    ///
    /// Fails with `LabelTooLong` exactly when the label has more than 63
    /// bytes.
    pub fn get_bytes(&self) -> (r: Result<Vec<u8>, DnsError>)
        ensures
            match r {
                Ok(bytes) => self@.len() <= MAX_LABEL_LEN && bytes@ == label_bytes(self@),
                Err(e) => self@.len() > MAX_LABEL_LEN && e == DnsError::LabelTooLong,
            },
    {
        if self.label.len() > MAX_LABEL_LEN {
            return Err(DnsError::LabelTooLong);
        }
        let mut msg: Vec<u8> = Vec::new();
        msg.push(self.label.len() as u8);
        push_all(&mut msg, self.label.as_slice());
        Ok(msg)
    }
}

impl DnsName {
    /// The name of a dotted hostname: one label for each part between dots.
    pub fn from_string(name: &str) -> (r: Self)
        ensures
            r@ == split_dots(name.spec_bytes()),
    {
        let bytes = name.as_bytes();
        let mut labels: Vec<DnsLabel> = Vec::new();
        let mut current: Vec<u8> = Vec::new();
        let mut i: usize = 0;
        while i < bytes.len()
            invariant
                i <= bytes.len(),
                labels_view(labels@).push(current@) == split_dots(bytes@.take(i as int)),
            decreases bytes.len() - i,
        {
            let ghost before = split_dots(bytes@.take(i as int));
            proof {
                assert(bytes@.take(i + 1).drop_last() == bytes@.take(i as int));
                assert(before.last() == current@);
                assert(before.drop_last() == labels_view(labels@));
            }
            if bytes[i] == 0x2E {
                let ghost done = labels_view(labels@);
                labels.push(DnsLabel { label: current });
                assert(labels_view(labels@) == done.push(current@));
                current = Vec::new();
            } else {
                current.push(bytes[i]);
            }
            i = i + 1;
        }
        let ghost done = labels_view(labels@);
        labels.push(DnsLabel { label: current });
        proof {
            assert(labels_view(labels@) == done.push(current@));
            assert(bytes@.take(i as int) == bytes@);
        }
        Self { labels }
    }

    /// Whether two names have the same labels.
    pub fn same_as(&self, other: &DnsName) -> (same: bool)
        ensures
            same == (self@ == other@),
    {
        if self.labels.len() != other.labels.len() {
            assert(self@.len() != other@.len());
            return false;
        }
        let mut i: usize = 0;
        while i < self.labels.len()
            invariant
                i <= self.labels.len(),
                self.labels.len() == other.labels.len(),
                forall|j: int| 0 <= j < i ==> self@[j] == other@[j],
            decreases self.labels.len() - i,
        {
            if !self.labels[i].same_as(&other.labels[i]) {
                assert(self@[i as int] != other@[i as int]);
                return false;
            }
            assert(self@[i as int] == other@[i as int]);
            i = i + 1;
        }
        assert(self@ =~= other@);
        true
    }

    /// A name with the same labels.
    pub fn duplicate(&self) -> (copy: Self)
        ensures
            copy@ == self@,
    {
        let mut labels: Vec<DnsLabel> = Vec::new();
        let mut i: usize = 0;
        while i < self.labels.len()
            invariant
                i <= self.labels.len(),
                labels_view(labels@) == self@.take(i as int),
            decreases self.labels.len() - i,
        {
            let ghost before = labels_view(labels@);
            let label = self.labels[i].duplicate();
            labels.push(label);
            assert(labels_view(labels@) == before.push(label@));
            assert(self@.take(i + 1) == self@.take(i as int).push(self@[i as int]));
            i = i + 1;
        }
        assert(self@.take(i as int) == self@);
        Self { labels }
    }

    /// The name as a dotted hostname: its labels with a dot between each
    /// two. The name without labels is written as nothing.
    pub fn to_text(&self) -> (text: Vec<u8>)
        ensures
            text@ == join_dots(self@),
    {
        let mut text: Vec<u8> = Vec::new();
        let mut i: usize = 0;
        while i < self.labels.len()
            invariant
                i <= self.labels.len(),
                text@ == join_dots(self@.take(i as int)),
            decreases self.labels.len() - i,
        {
            let ghost next = self@.take(i + 1);
            proof {
                assert(next.drop_last() == self@.take(i as int));
                assert(next.last() == self.labels@[i as int]@);
                if i == 0 {
                    assert(Seq::<u8>::empty() + next[0] == next[0]);
                }
            }
            if i > 0 {
                text.push(0x2E);
            }
            push_all(&mut text, self.labels[i].label.as_slice());
            i = i + 1;
        }
        assert(self@.take(i as int) == self@);
        text
    }

    /// The wire form of the name without compression.
    ///
    /// Fails with `LabelTooLong` exactly when some label has more than 63
    /// bytes.
    pub fn to_bytes(&self) -> (r: Result<Vec<u8>, DnsError>)
        ensures
            match r {
                Ok(bytes) => encodable(self@) && bytes@ == name_bytes(self@),
                Err(e) => !encodable(self@) && e == DnsError::LabelTooLong,
            },
    {
        let mut msg: Vec<u8> = Vec::new();
        let mut i: usize = 0;
        proof {
            assert(self@.skip(0) == self@);
            assert(msg@ + name_bytes(self@) == name_bytes(self@));
        }
        while i < self.labels.len()
            invariant
                i <= self.labels.len(),
                forall|j: int| 0 <= j < i ==> (#[trigger] self@[j]).len() <= MAX_LABEL_LEN,
                msg@ + name_bytes(self@.skip(i as int)) == name_bytes(self@),
            decreases self.labels.len() - i,
        {
            let label = &self.labels[i];
            assert(self@[i as int] == label@);
            if label.label.len() > MAX_LABEL_LEN {
                return Err(DnsError::LabelTooLong);
            }
            let ghost before = msg@;
            msg.push(label.label.len() as u8);
            push_all(&mut msg, label.label.as_slice());
            proof {
                let rest = self@.skip(i as int);
                assert(rest[0] == label@);
                assert(rest.drop_first() == self@.skip(i + 1));
                assert(msg@ == before + label_bytes(label@));
                assert(before + (label_bytes(label@) + name_bytes(self@.skip(i + 1))) == msg@
                    + name_bytes(self@.skip(i + 1)));
            }
            i = i + 1;
        }
        proof {
            assert(self@.skip(i as int).len() == 0);
        }
        msg.push(0);
        Ok(msg)
    }

    /// Decodes the name at the cursor and moves the cursor past the name's
    /// own bytes: past its zero byte, or past the first pointer.
    ///
    /// At most `MAX_POINTER_HOPS` pointers are followed. Every label of a
    /// name that decodes has between 1 and 63 bytes. On failure the cursor
    /// stays where it was.
    pub fn parse(cursor: &mut Cursor) -> (r: Result<Self, DnsError>)
        ensures
            final(cursor).data@ == old(cursor).data@,
            match r {
                Ok(name) => {
                    &&& name_at(old(cursor).data@, old(cursor).pos as int, MAX_POINTER_HOPS as nat)
                        == Ok::<(Seq<Seq<u8>>, int), DnsError>((name@, final(cursor).pos as int))
                    &&& valid_name(name@)
                },
                Err(e) => {
                    &&& name_at(old(cursor).data@, old(cursor).pos as int, MAX_POINTER_HOPS as nat)
                        == Err::<(Seq<Seq<u8>>, int), DnsError>(e)
                    &&& final(cursor).pos == old(cursor).pos
                },
            },
    {
        match labels_from(cursor.data, cursor.pos, MAX_POINTER_HOPS) {
            Ok((labels, end)) => {
                cursor.pos = end;
                Ok(Self { labels })
            },
            Err(e) => Err(e),
        }
    }

    /// The labels of the name that stands at offset `addr`, as a pointer to
    /// `addr` stands for them. The cursor is not moved.
    pub fn eval_pointer(cursor: &mut Cursor, addr: u16) -> (r: Result<Vec<DnsLabel>, DnsError>)
        ensures
            *final(cursor) == *old(cursor),
            match r {
                Ok(labels) => {
                    &&& name_at(old(cursor).data@, addr as int, MAX_POINTER_HOPS as nat) matches Ok(found)
                    &&& found.0 == labels_view(labels@)
                    &&& valid_name(labels_view(labels@))
                },
                Err(e) => name_at(old(cursor).data@, addr as int, MAX_POINTER_HOPS as nat) == Err::<
                    (Seq<Seq<u8>>, int),
                    DnsError,
                >(e),
            },
    {
        match labels_from(cursor.data, addr as usize, MAX_POINTER_HOPS) {
            Ok((labels, _)) => Ok(labels),
            Err(e) => Err(e),
        }
    }
}


/// A name that stands in a buffer in its uncompressed wire form decodes to
/// itself, whatever else the buffer holds and however many pointers may be
/// followed, and the decode ends right after the name's bytes.
pub proof fn lemma_name_inline(data: Seq<u8>, pos: int, labels: Seq<Seq<u8>>, hops: nat)
    requires
        valid_name(labels),
        0 <= pos,
        pos + name_bytes(labels).len() <= data.len(),
        data.subrange(pos, pos + name_bytes(labels).len()) == name_bytes(labels),
    ensures
        name_at(data, pos, hops) == Ok::<(Seq<Seq<u8>>, int), DnsError>(
            (labels, pos + name_bytes(labels).len()),
        ),
    decreases labels.len(),
{
    let wire = name_bytes(labels);
    let window = data.subrange(pos, pos + wire.len());
    assert(data[pos] == window[0]);
    if labels.len() == 0 {
        assert(labels == Seq::<Seq<u8>>::empty());
    } else {
        let first = labels[0];
        let rest = labels.drop_first();
        let n = first.len() as int;
        let tail = name_bytes(rest);
        assert(wire == label_bytes(first) + tail);
        assert(wire[0] == n as u8);
        assert(bytes_at(data, pos + 1, n as nat) == first) by {
            assert forall|i: int| 0 <= i < n implies data[pos + 1 + i] == first[i] by {
                assert(data[pos + 1 + i] == window[1 + i]);
                assert(wire[1 + i] == first[i]);
            }
        }
        assert(data.subrange(pos + 1 + n, pos + 1 + n + tail.len()) == tail) by {
            assert forall|i: int| 0 <= i < tail.len() implies data[pos + 1 + n + i] == tail[i] by {
                assert(data[pos + 1 + n + i] == window[1 + n + i]);
                assert(wire[1 + n + i] == tail[i]);
            }
        }
        assert(valid_name(rest)) by {
            assert forall|i: int| 0 <= i < rest.len() implies 1 <= (#[trigger] rest[i]).len()
                <= MAX_LABEL_LEN by {
                assert(rest[i] == labels[i + 1]);
            }
        }
        lemma_name_inline(data, pos + 1 + n, rest, hops);
        assert(seq![first] + rest == labels);
    }
}

/// Every name that decodes is valid: each of its labels has between 1 and 63
/// bytes, so that the name can be encoded and is read back from what was
/// encoded. Its own bytes lie inside the buffer.
pub proof fn lemma_decoded_name_is_valid(data: Seq<u8>, pos: int, hops: nat)
    requires
        name_at(data, pos, hops) is Ok,
    ensures
        valid_name(name_at(data, pos, hops)->Ok_0.0),
        pos < name_at(data, pos, hops)->Ok_0.1 <= data.len(),
    decreases hops, data.len() - pos,
{
    if data[pos] == 0 {
    } else if is_pointer(data[pos]) {
        lemma_decoded_name_is_valid(
            data,
            pointer_target(data[pos], data[pos + 1]),
            (hops - 1) as nat,
        );
    } else {
        let n = data[pos] as int;
        lemma_decoded_name_is_valid(data, pos + 1 + n, hops);
        let rest = name_at(data, pos + 1 + n, hops)->Ok_0.0;
        let first = bytes_at(data, pos + 1, n as nat);
        let labels = seq![first] + rest;
        assert forall|i: int| 0 <= i < labels.len() implies 1 <= (#[trigger] labels[i]).len()
            <= MAX_LABEL_LEN by {
            if i > 0 {
                assert(labels[i] == rest[i - 1]);
            }
        }
    }
}

/// Decoding the wire form of a name gives the name back and consumes all of
/// it.
pub proof fn lemma_name_round_trip(labels: Seq<Seq<u8>>, hops: nat)
    requires
        valid_name(labels),
    ensures
        name_at(name_bytes(labels), 0, hops) == Ok::<(Seq<Seq<u8>>, int), DnsError>(
            (labels, name_bytes(labels).len() as int),
        ),
{
    let wire = name_bytes(labels);
    assert(wire.subrange(0, wire.len() as int) == wire);
    lemma_name_inline(wire, 0, labels, hops);
}

/// A name written as a compression pointer decodes to the same labels as the
/// name that the pointer leads to, and so to the same labels as that name
/// written out in full.
pub proof fn lemma_pointer_equivalence(data: Seq<u8>, pos: int, hops: nat)
    requires
        0 <= pos,
        pos + 1 < data.len(),
        is_pointer(data[pos]),
        name_at(data, pointer_target(data[pos], data[pos + 1]), hops) is Ok,
    ensures
        ({
            let labels = name_at(data, pointer_target(data[pos], data[pos + 1]), hops)->Ok_0.0;
            &&& name_at(data, pos, hops + 1) == Ok::<(Seq<Seq<u8>>, int), DnsError>(
                (labels, pos + 2),
            )
            &&& name_at(name_bytes(labels), 0, hops + 1) == Ok::<(Seq<Seq<u8>>, int), DnsError>(
                (labels, name_bytes(labels).len() as int),
            )
        }),
{
    let target = pointer_target(data[pos], data[pos + 1]);
    let labels = name_at(data, target, hops)->Ok_0.0;
    lemma_decoded_name_is_valid(data, target, hops);
    lemma_name_round_trip(labels, hops + 1);
}

/// A name decodes to the same labels however it is compressed: whatever
/// labels and pointers it is written with, decoding it gives what decoding
/// its labels written out in full gives.
pub proof fn lemma_decoded_equals_inline(data: Seq<u8>, pos: int, hops: nat, other_hops: nat)
    requires
        name_at(data, pos, hops) is Ok,
    ensures
        ({
            let labels = name_at(data, pos, hops)->Ok_0.0;
            name_at(name_bytes(labels), 0, other_hops) == Ok::<(Seq<Seq<u8>>, int), DnsError>(
                (labels, name_bytes(labels).len() as int),
            )
        }),
{
    lemma_decoded_name_is_valid(data, pos, hops);
    lemma_name_round_trip(name_at(data, pos, hops)->Ok_0.0, other_hops);
}

/// The offset that the name at `pos` points to: where its first compression
/// pointer leads, if its labels can be read up to one.
pub open spec fn next_hop(data: Seq<u8>, pos: int) -> Option<int>
    decreases data.len() - pos,
{
    if pos < 0 || pos >= data.len() || data[pos] == 0 {
        None
    } else if is_pointer(data[pos]) {
        if pos + 1 >= data.len() {
            None
        } else {
            Some(pointer_target(data[pos], data[pos + 1]))
        }
    } else if data[pos] > MAX_LABEL_LEN || pos + 1 + data[pos] > data.len() {
        None
    } else {
        next_hop(data, pos + 1 + data[pos])
    }
}

/// The offset reached from `pos` after following `k` pointers.
pub open spec fn hop_n(data: Seq<u8>, pos: int, k: nat) -> Option<int>
    decreases k,
{
    if k == 0 {
        Some(pos)
    } else {
        match hop_n(data, pos, (k - 1) as nat) {
            Some(p) => next_hop(data, p),
            None => None,
        }
    }
}

/// Whether every offset in `trap` holds a name whose pointer leads to an
/// offset in `trap` again.
pub open spec fn pointer_trap(data: Seq<u8>, trap: Set<int>) -> bool {
    forall|p: int| #[trigger]
        trap.contains(p) ==> next_hop(data, p) is Some && trap.contains(next_hop(data, p)->Some_0)
}

/// Decoding a name that reaches a pointer fails as decoding at the pointer's
/// target does, and fails with `PointerLoop` when no hop is left.
proof fn lemma_follow_hop(data: Seq<u8>, pos: int, hops: nat)
    requires
        next_hop(data, pos) is Some,
    ensures
        hops == 0 ==> name_at(data, pos, hops) == Err::<(Seq<Seq<u8>>, int), DnsError>(
            DnsError::PointerLoop,
        ),
        hops > 0 ==> (name_at(data, next_hop(data, pos)->Some_0, (hops - 1) as nat) matches Err(e)
            ==> name_at(data, pos, hops) == Err::<(Seq<Seq<u8>>, int), DnsError>(e)),
    decreases data.len() - pos,
{
    if !is_pointer(data[pos]) {
        lemma_follow_hop(data, pos + 1 + data[pos], hops);
    }
}

/// Decoding at an offset from which the pointers never lead out of a set of
/// such offsets fails with `PointerLoop`, however many hops are allowed.
pub proof fn lemma_pointer_trap_fails(data: Seq<u8>, trap: Set<int>, pos: int, hops: nat)
    requires
        pointer_trap(data, trap),
        trap.contains(pos),
    ensures
        name_at(data, pos, hops) == Err::<(Seq<Seq<u8>>, int), DnsError>(DnsError::PointerLoop),
    decreases hops,
{
    lemma_follow_hop(data, pos, hops);
    if hops > 0 {
        lemma_pointer_trap_fails(data, trap, next_hop(data, pos)->Some_0, (hops - 1) as nat);
    }
}

/// If `k` hops can be followed, so can any smaller number of them.
proof fn lemma_hop_prefix(data: Seq<u8>, pos: int, j: nat, k: nat)
    requires
        j <= k,
        hop_n(data, pos, k) is Some,
    ensures
        hop_n(data, pos, j) is Some,
    decreases k,
{
    if j < k {
        lemma_hop_prefix(data, pos, j, (k - 1) as nat);
    }
}

/// Decoding a name whose compression pointers come round fails with
/// `PointerLoop`, whatever the number of hops that are allowed: after `lead`
/// hops the decode is at an offset to which `period` more hops lead back.
/// With a `lead` of zero the name's pointers lead back to the name itself.
pub proof fn lemma_pointer_cycle_fails(data: Seq<u8>, pos: int, lead: nat, period: nat, hops: nat)
    requires
        period >= 1,
        hop_n(data, pos, lead) is Some,
        hop_n(data, pos, lead + period) == hop_n(data, pos, lead),
    ensures
        name_at(data, pos, hops) == Err::<(Seq<Seq<u8>>, int), DnsError>(DnsError::PointerLoop),
{
    let round = lead + period;
    let trap = Set::new(|q: int| exists|j: nat| j < round && hop_n(data, pos, j) == Some(q));
    assert forall|q: int| #[trigger] trap.contains(q) implies next_hop(data, q) is Some
        && trap.contains(next_hop(data, q)->Some_0) by {
        let j = choose|j: nat| j < round && hop_n(data, pos, j) == Some(q);
        assert(hop_n(data, pos, j + 1) == next_hop(data, q));
        lemma_hop_prefix(data, pos, j + 1, round);
        let t = next_hop(data, q)->Some_0;
        if j + 1 < round {
            let next: nat = j + 1;
            assert(next < round && hop_n(data, pos, next) == Some(t));
        } else {
            assert(lead < round && hop_n(data, pos, lead) == Some(t));
        }
    }
    assert(0nat < round && hop_n(data, pos, 0nat) == Some(pos));
    assert(trap.contains(pos));
    lemma_pointer_trap_fails(data, trap, pos, hops);
}

/// Splitting a text that ends with a label without dots gives what
/// splitting the text before that label gives, with the label added to the
/// last part.
proof fn lemma_split_extends(head: Seq<u8>, label: Seq<u8>)
    requires
        forall|j: int| 0 <= j < label.len() ==> label[j] != 0x2E,
    ensures
        split_dots(head + label) == split_dots(head).drop_last().push(
            split_dots(head).last() + label,
        ),
        split_dots(head).len() >= 1,
    decreases label.len(),
{
    if label.len() == 0 {
        assert(head + label == head);
        lemma_split_nonempty(head);
        assert(split_dots(head).last() + label == split_dots(head).last());
        assert(split_dots(head).drop_last().push(split_dots(head).last()) == split_dots(head));
    } else {
        let shorter = label.drop_last();
        let whole = head + label;
        assert(whole.drop_last() == head + shorter);
        assert(whole.last() == label.last());
        lemma_split_extends(head, shorter);
        let before = split_dots(head + shorter);
        assert(before.last() == split_dots(head).last() + shorter);
        assert(before.drop_last() == split_dots(head).drop_last());
        assert((split_dots(head).last() + shorter).push(label.last()) == split_dots(head).last()
            + label);
    }
}

/// Splitting always gives at least one part.
proof fn lemma_split_nonempty(s: Seq<u8>)
    ensures
        split_dots(s).len() >= 1,
    decreases s.len(),
{
    if s.len() > 0 {
        lemma_split_nonempty(s.drop_last());
    }
}

/// A name with at least one label and no dot inside a label is read back
/// from its dotted form.
pub proof fn lemma_text_round_trip(labels: Seq<Seq<u8>>)
    requires
        labels.len() >= 1,
        dot_free(labels),
    ensures
        split_dots(join_dots(labels)) == labels,
    decreases labels.len(),
{
    let last = labels.last();
    assert forall|j: int| 0 <= j < last.len() implies last[j] != 0x2E by {
        assert(last[j] == labels[labels.len() - 1][j]);
    }
    if labels.len() == 1 {
        let nothing = Seq::<u8>::empty();
        assert(nothing + last == last);
        lemma_split_extends(nothing, last);
        assert(split_dots(nothing) == seq![nothing]);
        assert(split_dots(last) == seq![last]);
        assert(labels == seq![last]);
    } else {
        let before = labels.drop_last();
        assert(dot_free(before)) by {
            assert forall|i: int, j: int| 0 <= i < before.len() && 0 <= j < before[i].len() implies (
            #[trigger] before[i][j]) != 0x2E by {
                assert(before[i][j] == labels[i][j]);
            }
        }
        lemma_text_round_trip(before);
        let head = join_dots(before) + seq![0x2Eu8];
        assert(head.drop_last() == join_dots(before));
        assert(split_dots(head) == before.push(Seq::empty()));
        lemma_split_extends(head, last);
        assert(split_dots(head).drop_last() == before);
        assert(Seq::<u8>::empty() + last == last);
        assert(before.push(last) == labels);
    }
}

/// A buffer that ends inside the wire form of a valid name, or before it,
/// fails to decode at the name with `Truncated`.
pub proof fn lemma_name_cut(data: Seq<u8>, pos: int, labels: Seq<Seq<u8>>, hops: nat)
    requires
        valid_name(labels),
        0 <= pos,
        holds_start_of(data, pos, name_bytes(labels)),
        data.len() < pos + name_bytes(labels).len(),
    ensures
        name_at(data, pos, hops) == Err::<(Seq<Seq<u8>>, int), DnsError>(DnsError::Truncated),
    decreases labels.len(),
{
    let wire = name_bytes(labels);
    if pos < data.len() {
        assert(data[pos] == wire[0]);
        let first = labels[0];
        let rest = labels.drop_first();
        let n = first.len() as int;
        let tail = name_bytes(rest);
        assert(wire == label_bytes(first) + tail);
        assert(wire[0] == n as u8);
        if pos + 1 + n <= data.len() {
            assert(valid_name(rest)) by {
                assert forall|i: int| 0 <= i < rest.len() implies 1 <= (#[trigger] rest[i]).len()
                    <= MAX_LABEL_LEN by {
                    assert(rest[i] == labels[i + 1]);
                }
            }
            assert(holds_start_of(data, pos + 1 + n, tail)) by {
                assert forall|i: int| 0 <= i < tail.len() && pos + 1 + n + i < data.len() implies data[pos
                    + 1 + n + i] == #[trigger] tail[i] by {
                    assert(wire[1 + n + i] == tail[i]);
                }
            }
            lemma_name_cut(data, pos + 1 + n, rest, hops);
        }
    }
}

} // verus!
