//! The frames that were read and passed over while waiting for a response, counted by kind.
use crate::json::{json_document, parse};
use crate::mcp::frames::{frame_in, read_frame, Frame, FrameId, FrameView};
use crate::text::{byte_len, decimal, joined, same, write_decimal};
use vstd::prelude::*;
use vstd::std_specs::iter::IteratorSpec;

verus! {

// ---------------------------------------------------------------------------
// Kinds
// ---------------------------------------------------------------------------

/// The kind of a frame: its method, else the request that it answers, if it says so.
pub open spec fn frame_kind(frame: FrameView) -> Seq<char> {
    match frame.method {
        Some(method) => method,
        None => match frame.id {
            FrameId::Number(id) => "response for id "@ + decimal(id as nat),
            _ => "unrecognized JSON-RPC frame"@,
        },
    }
}

/// The kind of a payload. One that is not JSON may be the server's own answer, truncated, and
/// is known by its size in bytes.
pub open spec fn kind_of(payload: Seq<char>) -> Seq<char> {
    match json_document(payload) {
        Some(value) => frame_kind(frame_in(value)),
        None => "malformed non-JSON frame ("@ + decimal(byte_len(payload)) + " bytes)"@,
    }
}

/// Names the kind of a frame.
pub fn name_frame(frame: Frame) -> (kind: String)
    ensures
        kind@ == frame_kind(frame@),
{
    match frame.method {
        Some(method) => method,
        None => match frame.id {
            FrameId::Number(id) => {
                let mut kind = "response for id ".to_owned();
                kind.append(write_decimal(id).as_str());
                kind
            },
            _ => "unrecognized JSON-RPC frame".to_owned(),
        },
    }
}

/// Names the kind of a payload.
pub fn name_payload(payload: &str) -> (kind: String)
    ensures
        kind@ == kind_of(payload@),
{
    match parse(payload) {
        Some(value) => name_frame(read_frame(&value)),
        None => {
            let size: usize = payload.as_bytes().len();
            let mut kind = "malformed non-JSON frame (".to_owned();
            kind.append(write_decimal(size as u64).as_str());
            kind.append(" bytes)");
            kind
        },
    }
}

// ---------------------------------------------------------------------------
// The order of kinds
// ---------------------------------------------------------------------------

/// Dictionary order on texts, by code point.
pub open spec fn precedes(a: Seq<char>, b: Seq<char>) -> bool
    decreases a.len(),
{
    if b.len() == 0 {
        false
    } else if a.len() == 0 {
        true
    } else if a[0] != b[0] {
        a[0] < b[0]
    } else {
        precedes(a.drop_first(), b.drop_first())
    }
}

/// No text precedes itself, and of two different texts one precedes the other.
pub proof fn lemma_precedes_total(a: Seq<char>, b: Seq<char>)
    ensures
        a == b ==> !precedes(a, b),
        a != b ==> precedes(a, b) != precedes(b, a),
    decreases a.len(),
{
    if a.len() > 0 && b.len() > 0 && a[0] == b[0] {
        lemma_precedes_total(a.drop_first(), b.drop_first());
        assert(a =~= seq![a[0]] + a.drop_first());
        assert(b =~= seq![b[0]] + b.drop_first());
    } else if a.len() == 0 && b.len() == 0 {
        assert(a =~= b);
    }
}

/// Precedence is transitive.
pub proof fn lemma_precedes_transitive(a: Seq<char>, b: Seq<char>, c: Seq<char>)
    requires
        precedes(a, b),
        precedes(b, c),
    ensures
        precedes(a, c),
    decreases a.len(),
{
    if a.len() > 0 && a[0] == b[0] && b[0] == c[0] {
        lemma_precedes_transitive(a.drop_first(), b.drop_first(), c.drop_first());
    }
}

/// Decides whether `a` comes before `b` in dictionary order.
fn comes_before(a: &str, b: &str) -> (before: bool)
    ensures
        before == precedes(a@, b@),
{
    let mut left = a.chars();
    let mut right = b.chars();
    let ghost mut passed: int = 0;
    proof {
        assert(a@.skip(0) =~= a@);
        assert(b@.skip(0) =~= b@);
    }
    loop
        invariant
            left.obeys_prophetic_iter_laws(),
            right.obeys_prophetic_iter_laws(),
            0 <= passed <= a@.len(),
            passed <= b@.len(),
            left.remaining() == a@.skip(passed),
            right.remaining() == b@.skip(passed),
            precedes(a@, b@) == precedes(a@.skip(passed), b@.skip(passed)),
        decreases b@.len() - passed,
    {
        match (left.next(), right.next()) {
            (_, None) => {
                return false;
            },
            (None, Some(_)) => {
                return true;
            },
            (Some(p), Some(q)) => {
                assert(p == a@.skip(passed)[0] && q == b@.skip(passed)[0]);
                if p != q {
                    return p < q;
                }
                proof {
                    assert(a@.skip(passed).drop_first() =~= a@.skip(passed + 1));
                    assert(b@.skip(passed).drop_first() =~= b@.skip(passed + 1));
                    passed = passed + 1;
                }
            },
        }
    }
}

// ---------------------------------------------------------------------------
// The tally
// ---------------------------------------------------------------------------

/// A kind of frame, and how often it was seen.
pub struct Kind {
    pub what: String,
    pub count: usize,
}

/// A tally of skipped frames by kind.
///
/// Counted rather than collected: the tally ends up in an error text, and a stream full of
/// progress notifications can carry thousands of frames of one kind.
pub struct SkippedFrames {
    kinds: Vec<Kind>,
}

/// One entry of a tally: a kind, and how often it was seen.
pub type Entry = (Seq<char>, nat);

/// The entries of a list of kinds.
spec fn entries(kinds: Seq<Kind>) -> Seq<Entry> {
    kinds.map_values(|kind: Kind| (kind.what@, kind.count as nat))
}

impl View for SkippedFrames {
    type V = Seq<Entry>;

    closed spec fn view(&self) -> Seq<Entry> {
        entries(self.kinds@)
    }
}

/// The number of frames in a tally.
pub open spec fn total(tally: Seq<Entry>) -> nat
    decreases tally.len(),
{
    if tally.len() == 0 {
        0
    } else {
        total(tally.drop_last()) + tally.last().1
    }
}

/// How often the tally has seen `kind`.
pub open spec fn count_of(tally: Seq<Entry>, kind: Seq<char>) -> nat
    decreases tally.len(),
{
    if tally.len() == 0 {
        0
    } else if tally.last().0 == kind {
        tally.last().1
    } else {
        count_of(tally.drop_last(), kind)
    }
}

/// Each kind stands in the tally once, in dictionary order, and was seen.
pub open spec fn ordered(tally: Seq<Entry>) -> bool
    decreases tally.len(),
{
    tally.len() == 0 || {
        &&& ordered(tally.drop_last())
        &&& tally.last().1 > 0
        &&& tally.len() > 1 ==> precedes(tally[tally.len() - 2].0, tally.last().0)
    }
}

/// The tally with one more frame of `kind`.
pub open spec fn counted(tally: Seq<Entry>, kind: Seq<char>) -> Seq<Entry>
    decreases tally.len(),
{
    if tally.len() == 0 || precedes(tally.last().0, kind) {
        tally.push((kind, 1))
    } else if tally.last().0 == kind {
        tally.drop_last().push((kind, tally.last().1 + 1))
    } else {
        counted(tally.drop_last(), kind).push(tally.last())
    }
}

/// Counting a frame keeps the order of the kinds and adds one to the total.
pub proof fn lemma_counted(tally: Seq<Entry>, kind: Seq<char>)
    requires
        ordered(tally),
    ensures
        ordered(counted(tally, kind)),
        total(counted(tally, kind)) == total(tally) + 1,
        counted(tally, kind).len() > 0,
        counted(tally, kind).last().0 == kind || tally.len() > 0 && counted(tally, kind).last().0
            == tally.last().0,
    decreases tally.len(),
{
    let after = counted(tally, kind);
    if tally.len() == 0 || precedes(tally.last().0, kind) {
        assert(after.drop_last() =~= tally);
    } else if tally.last().0 == kind {
        assert(after.drop_last() =~= tally.drop_last());
    } else {
        let rest = tally.drop_last();
        lemma_counted(rest, kind);
        lemma_precedes_total(kind, tally.last().0);
        assert(after.drop_last() =~= counted(rest, kind));
        assert(after[after.len() - 2] == counted(rest, kind).last());
    }
}

/// Counting a frame adds one to the count of its kind and leaves every other count as it was.
pub proof fn law_count_goes_up_by_one(tally: Seq<Entry>, kind: Seq<char>, other: Seq<char>)
    requires
        ordered(tally),
    ensures
        count_of(counted(tally, kind), other) == count_of(tally, other) + if other == kind {
            1nat
        } else {
            0nat
        },
    decreases tally.len(),
{
    let after = counted(tally, kind);
    if tally.len() == 0 || precedes(tally.last().0, kind) {
        assert(after.drop_last() =~= tally);
        lemma_absent_beyond(tally, kind);
    } else if tally.last().0 == kind {
        assert(after.drop_last() =~= tally.drop_last());
    } else {
        law_count_goes_up_by_one(tally.drop_last(), kind, other);
        assert(after.drop_last() =~= counted(tally.drop_last(), kind));
    }
}

/// A kind that comes after every kind of the tally is not in it.
proof fn lemma_absent_beyond(tally: Seq<Entry>, kind: Seq<char>)
    requires
        ordered(tally),
        tally.len() == 0 || precedes(tally.last().0, kind),
    ensures
        count_of(tally, kind) == 0,
    decreases tally.len(),
{
    if tally.len() > 0 {
        lemma_precedes_total(tally.last().0, kind);
        let rest = tally.drop_last();
        if rest.len() > 0 {
            lemma_precedes_transitive(rest.last().0, tally.last().0, kind);
        }
        lemma_absent_beyond(rest, kind);
    }
}

/// How an entry is listed: its kind, and its count where that is more than one.
pub open spec fn listed(entry: Entry) -> Seq<char> {
    if entry.1 > 1 {
        entry.0 + " x"@ + decimal(entry.1)
    } else {
        entry.0
    }
}

/// The most kinds that a description lists.
pub const LISTED_KINDS: usize = 10;

/// The description of a tally in an error text: the total, the first kinds, and how many kinds
/// there are beyond them. Nothing where nothing was skipped.
pub open spec fn described(tally: Seq<Entry>) -> Seq<char> {
    let shown: nat = if tally.len() <= LISTED_KINDS {
        tally.len()
    } else {
        LISTED_KINDS as nat
    };
    let more = (tally.len() - shown) as nat;
    let tail = if more > 0 {
        ", and "@ + decimal(more) + " other kind(s)"@
    } else {
        Seq::empty()
    };
    let names = tally.take(shown as int).map_values(|entry: Entry| listed(entry));
    if tally.len() == 0 {
        Seq::empty()
    } else {
        " (skipped "@ + decimal(total(tally)) + " frame(s): "@ + joined(names, ", "@) + tail + ")"@
    }
}

impl SkippedFrames {
    /// Each kind is listed once, in dictionary order.
    pub closed spec fn wf(&self) -> bool {
        ordered(self@)
    }

    /// A tally of nothing.
    pub fn new() -> (tally: SkippedFrames)
        ensures
            tally.wf(),
            tally@ == Seq::<Entry>::empty(),
    {
        let tally = SkippedFrames { kinds: Vec::new() };
        assert(tally@ =~= Seq::<Entry>::empty());
        tally
    }

    /// The tally is in order.
    pub proof fn lemma_ordered(&self)
        requires
            self.wf(),
        ensures
            ordered(self@),
    {
    }

    /// Counts one frame of `kind`.
    fn count(&mut self, kind: String)
        requires
            old(self).wf(),
            total(old(self)@) < usize::MAX,
        ensures
            final(self).wf(),
            final(self)@ == counted(old(self)@, kind@),
    {
        let ghost before = self@;
        proof {
            lemma_counted(before, kind@);
            assert(before.take(before.len() as int) =~= before);
            assert(before.skip(before.len() as int) =~= Seq::<Entry>::empty());
            assert(counted(before, kind@) =~= counted(before, kind@) + Seq::<Entry>::empty());
        }
        let mut i: usize = self.kinds.len();
        while i > 0
            invariant
                i <= self.kinds.len(),
                before == entries(self.kinds@),
                counted(before, kind@) == counted(before.take(i as int), kind@) + before.skip(
                    i as int,
                ),
            ensures
                i == 0 || precedes(before[i - 1].0, kind@) || before[i - 1].0 == kind@,
            decreases i,
        {
            let ghost head = before.take(i as int);
            assert(head.last() == before[i - 1]);
            if comes_before(self.kinds[i - 1].what.as_str(), kind.as_str()) || same(
                self.kinds[i - 1].what.as_str(),
                kind.as_str(),
            ) {
                break;
            }
            proof {
                assert(head.drop_last() =~= before.take(i - 1));
                assert(counted(head, kind@) == counted(before.take(i - 1), kind@).push(
                    before[i - 1],
                ));
                assert(before.skip(i - 1) =~= seq![before[i - 1]] + before.skip(i as int));
                assert(counted(before, kind@) =~= counted(before.take(i - 1), kind@) + before.skip(
                    i - 1,
                ));
            }
            i = i - 1;
        }
        let ghost head = before.take(i as int);
        if i > 0 && same(self.kinds[i - 1].what.as_str(), kind.as_str()) {
            proof {
                lemma_precedes_total(kind@, kind@);
                assert(head.last() == before[i - 1]);
                lemma_count_below_total(before, i - 1);
            }
            self.kinds[i - 1].count = self.kinds[i - 1].count + 1;
            assert(self@ =~= counted(before, kind@));
        } else {
            self.kinds.insert(i, Kind { what: kind, count: 1 });
            proof {
                if i > 0 {
                    assert(head.last() == before[i - 1]);
                }
                assert(self@ =~= counted(before, kind@));
            }
        }
    }

    /// Counts the frame with the given payload.
    pub fn note_skipped(&mut self, payload: &str)
        requires
            old(self).wf(),
            total(old(self)@) < usize::MAX,
        ensures
            final(self).wf(),
            final(self)@ == counted(old(self)@, kind_of(payload@)),
    {
        self.count(name_payload(payload));
    }

    /// The number of frames counted.
    pub fn total(&self) -> (sum: usize)
        requires
            self.wf(),
            total(self@) <= usize::MAX,
        ensures
            sum == total(self@),
    {
        let mut sum: usize = 0;
        let mut i: usize = 0;
        assert(self@.take(0) =~= Seq::<Entry>::empty());
        while i < self.kinds.len()
            invariant
                i <= self.kinds.len(),
                total(self@) <= usize::MAX,
                sum == total(self@.take(i as int)),
                self@ == entries(self.kinds@),
            decreases self.kinds.len() - i,
        {
            proof {
                assert(self@.take(i + 1).drop_last() =~= self@.take(i as int));
                assert(self@.take(i + 1).last() == self@[i as int]);
                lemma_total_prefix(self@, i + 1);
            }
            sum = sum + self.kinds[i].count;
            i = i + 1;
        }
        assert(self@.take(i as int) =~= self@);
        sum
    }

    /// Describes the tally for an error text.
    pub fn describe_skipped(&self) -> (text: String)
        requires
            self.wf(),
            total(self@) <= usize::MAX,
        ensures
            text@ == described(self@),
    {
        if self.kinds.len() == 0 {
            return String::new();
        }
        let shown: usize = if self.kinds.len() <= LISTED_KINDS {
            self.kinds.len()
        } else {
            LISTED_KINDS
        };
        let ghost head = self@.take(shown as int);
        let ghost names = head.map_values(|entry: Entry| listed(entry));
        let mut text = " (skipped ".to_owned();
        text.append(write_decimal(self.total() as u64).as_str());
        text.append(" frame(s): ");
        let ghost start = text@;
        let mut i: usize = 0;
        proof {
            assert(names.take(0) =~= Seq::<Seq<char>>::empty());
            assert(text@ =~= start + joined(names.take(0), ", "@));
        }
        while i < shown
            invariant
                i <= shown <= self.kinds.len(),
                self@ == entries(self.kinds@),
                head == self@.take(shown as int),
                names == head.map_values(|entry: Entry| listed(entry)),
                text@ == start + joined(names.take(i as int), ", "@),
            decreases shown - i,
        {
            let ghost before = joined(names.take(i as int), ", "@);
            let ghost next = names.take(i + 1);
            proof {
                assert(next.drop_last() =~= names.take(i as int));
                assert(next.last() == listed(self@[i as int]));
                let kind = self.kinds@[i as int];
                assert(self@[i as int] == (kind.what@, kind.count as nat));
            }
            if i > 0 {
                text.append(", ");
            }
            text.append(self.kinds[i].what.as_str());
            if self.kinds[i].count > 1 {
                text.append(" x");
                text.append(write_decimal(self.kinds[i].count as u64).as_str());
            }
            proof {
                if i == 0 {
                    assert(before =~= Seq::<char>::empty());
                    assert(text@ =~= start + listed(self@[0]));
                } else {
                    assert(text@ =~= start + (before + ", "@ + listed(self@[i as int])));
                }
            }
            i = i + 1;
        }
        assert(names.take(i as int) =~= names);
        if self.kinds.len() > shown {
            text.append(", and ");
            text.append(write_decimal((self.kinds.len() - shown) as u64).as_str());
            text.append(" other kind(s)");
        }
        text.append(")");
        assert(text@ =~= described(self@));
        text
    }
}

/// A tally counts no kind more often than it counts frames.
proof fn lemma_count_below_total(tally: Seq<Entry>, i: int)
    requires
        0 <= i < tally.len(),
    ensures
        tally[i].1 <= total(tally),
    decreases tally.len(),
{
    if i < tally.len() - 1 {
        lemma_count_below_total(tally.drop_last(), i);
    }
}

/// The first kinds of a tally count no more frames than all of them.
proof fn lemma_total_prefix(tally: Seq<Entry>, k: int)
    requires
        0 <= k <= tally.len(),
    ensures
        total(tally.take(k)) <= total(tally),
    decreases tally.len(),
{
    if k == tally.len() {
        assert(tally.take(k) =~= tally);
    } else {
        lemma_total_prefix(tally.drop_last(), k);
        assert(tally.drop_last().take(k) =~= tally.take(k));
    }
}

/// Kinds are in dictionary order: by the first character in which they differ, and a kind before
/// every longer one that it starts.
pub proof fn law_kinds_are_in_dictionary_order(
    common: Seq<char>,
    x: char,
    y: char,
    a: Seq<char>,
    b: Seq<char>,
)
    ensures
        x != y ==> precedes(common + seq![x] + a, common + seq![y] + b) == (x < y),
        precedes(common, common + seq![x] + a),
        !precedes(common + seq![x] + a, common),
        !precedes(common, common),
    decreases common.len(),
{
    let left = common + seq![x] + a;
    let right = common + seq![y] + b;
    if common.len() > 0 {
        let rest = common.drop_first();
        law_kinds_are_in_dictionary_order(rest, x, y, a, b);
        assert(left.drop_first() =~= rest + seq![x] + a);
        assert(right.drop_first() =~= rest + seq![y] + b);
        assert(left[0] == common[0]);
        assert(right[0] == common[0]);
    } else {
        assert(left[0] == x);
        assert(right[0] == y);
    }
}

} // verus!
