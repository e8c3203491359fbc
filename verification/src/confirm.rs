//! The confirmation before a change: what counts as a yes, and the stages that an
//! edit or a deletion goes through from its loading to its end.

use vstd::prelude::*;

verus! {

/// Whether `c` is white space, as Unicode's `White_Space` property has it.
pub open spec fn is_space(c: char) -> bool {
    let n = c as u32;
    ||| 0x09 <= n <= 0x0d
    ||| n == 0x20
    ||| n == 0x85
    ||| n == 0xa0
    ||| n == 0x1680
    ||| 0x2000 <= n <= 0x200a
    ||| n == 0x2028
    ||| n == 0x2029
    ||| n == 0x202f
    ||| n == 0x205f
    ||| n == 0x3000
}

/// The text without the white space at its start.
pub open spec fn trim_start(s: Seq<char>) -> Seq<char>
    decreases s.len(),
{
    if s.len() > 0 && is_space(s[0]) {
        trim_start(s.drop_first())
    } else {
        s
    }
}

/// The text without the white space at its end.
pub open spec fn trim_end(s: Seq<char>) -> Seq<char>
    decreases s.len(),
{
    if s.len() > 0 && is_space(s.last()) {
        trim_end(s.drop_last())
    } else {
        s
    }
}

/// The text without the white space at its start and at its end.
pub open spec fn trimmed(s: Seq<char>) -> Seq<char> {
    trim_end(trim_start(s))
}

/// Whether `c` is the letter `letter`, small or capital; `letter` is the
/// small one.
pub open spec fn is_letter(c: char, letter: char) -> bool {
    c == letter || c as u32 + 32 == letter as u32
}

/// Whether an answer is a yes: after trimming, `y` or `yes`, in small or
/// capital letters. Everything else, the empty answer included, is a no.
pub open spec fn accepts(answer: Seq<char>) -> bool {
    let t = trimmed(answer);
    ||| t.len() == 1 && is_letter(t[0], 'y')
    ||| t.len() == 3 && is_letter(t[0], 'y') && is_letter(t[1], 'e') && is_letter(t[2], 's')
}

/// Whether `c` is white space.
pub fn is_white_space(c: char) -> (b: bool)
    ensures
        b == is_space(c),
{
    let n = c as u32;
    (0x09 <= n && n <= 0x0d) || n == 0x20 || n == 0x85 || n == 0xa0 || n == 0x1680 || (0x2000 <= n
        && n <= 0x200a) || n == 0x2028 || n == 0x2029 || n == 0x202f || n == 0x205f || n
        == 0x3000
}

/// Where the first `i` characters are white space and the next one, if
/// any, is not, trimming the start drops just those `i`.
proof fn lemma_trim_start(s: Seq<char>, i: int)
    requires
        0 <= i <= s.len(),
        forall|k: int| 0 <= k < i ==> is_space(#[trigger] s[k]),
        i < s.len() ==> !is_space(s[i]),
    ensures
        trim_start(s) == s.subrange(i, s.len() as int),
    decreases i,
{
    if i == 0 {
        assert(s.subrange(0, s.len() as int) =~= s);
    } else {
        assert(is_space(s[0]));
        let rest = s.drop_first();
        assert forall|k: int| 0 <= k < i - 1 implies is_space(#[trigger] rest[k]) by {
            assert(is_space(s[k + 1]));
        }
        lemma_trim_start(rest, i - 1);
        assert(rest.subrange(i - 1, rest.len() as int) =~= s.subrange(i, s.len() as int));
    }
}

/// Where the characters from `j` on are white space and the one before
/// them, if any, is not, trimming the end drops just those.
proof fn lemma_trim_end(s: Seq<char>, j: int)
    requires
        0 <= j <= s.len(),
        forall|k: int| j <= k < s.len() ==> is_space(#[trigger] s[k]),
        0 < j ==> !is_space(s[j - 1]),
    ensures
        trim_end(s) == s.subrange(0, j),
    decreases s.len() - j,
{
    if j == s.len() {
        assert(s.subrange(0, j) =~= s);
    } else {
        assert(is_space(s[s.len() - 1]));
        let rest = s.drop_last();
        assert forall|k: int| j <= k < rest.len() implies is_space(#[trigger] rest[k]) by {
            assert(is_space(s[k]));
        }
        lemma_trim_end(rest, j);
        assert(rest.subrange(0, j) =~= s.subrange(0, j));
    }
}

/// Whether `c` is the letter `letter`, small or capital.
fn matches_letter(c: char, letter: char) -> (b: bool)
    requires
        'a' <= letter <= 'z',
    ensures
        b == is_letter(c, letter),
{
    c == letter || c as u32 + 32 == letter as u32
}

/// Whether an answer is a yes.
pub fn confirmed(answer: &str) -> (yes: bool)
    ensures
        yes == accepts(answer@),
{
    let n = answer.unicode_len();
    let mut i: usize = 0;
    while i < n && is_white_space(answer.get_char(i))
        invariant
            i <= n == answer@.len(),
            forall|k: int| 0 <= k < i ==> is_space(#[trigger] answer@[k]),
        decreases n - i,
    {
        i += 1;
    }
    let mut j: usize = n;
    while j > i && is_white_space(answer.get_char(j - 1))
        invariant
            i <= j <= n == answer@.len(),
            forall|k: int| j <= k < n ==> is_space(#[trigger] answer@[k]),
        decreases j,
    {
        j -= 1;
    }
    proof {
        let s = answer@;
        lemma_trim_start(s, i as int);
        let rest = s.subrange(i as int, n as int);
        assert forall|k: int| j - i <= k < rest.len() implies is_space(#[trigger] rest[k]) by {
            assert(is_space(s[k + i]));
        }
        lemma_trim_end(rest, j - i);
        assert(rest.subrange(0, j - i) =~= s.subrange(i as int, j as int));
        assert(trimmed(s) == s.subrange(i as int, j as int));
    }
    if j - i == 1 {
        matches_letter(answer.get_char(i), 'y')
    } else if j - i == 3 {
        matches_letter(answer.get_char(i), 'y') && matches_letter(answer.get_char(i + 1), 'e')
            && matches_letter(answer.get_char(i + 2), 's')
    } else {
        false
    }
}

/// The stages of an edit or a deletion.
#[derive(Clone, Copy, Debug, PartialEq, Eq, Structural)]
pub enum Stage {
    /// The record was found.
    Loaded,
    /// The change was shown to the user.
    Previewed,
    /// The user said yes.
    Confirmed,
    /// The user said anything else: a normal end, with nothing written.
    Aborted,
    /// The change was written.
    Committed,
    /// The store did not report exactly one row affected.
    Failed,
}

/// What moves an edit or a deletion from one stage to the next.
#[derive(Clone, Copy, Debug, PartialEq, Eq, Structural)]
pub enum Signal {
    /// The change was shown.
    Shown,
    /// The user answered; `true` for a yes.
    Answered(bool),
    /// The store wrote and reported this many rows affected.
    Stored(u64),
}

/// The stage that follows `stage` on `signal`, or `None` where the signal
/// has no place at that stage.
pub open spec fn next_stage(stage: Stage, signal: Signal) -> Option<Stage> {
    match (stage, signal) {
        (Stage::Loaded, Signal::Shown) => Some(Stage::Previewed),
        (Stage::Previewed, Signal::Answered(yes)) => Some(
            if yes {
                Stage::Confirmed
            } else {
                Stage::Aborted
            },
        ),
        (Stage::Confirmed, Signal::Stored(rows)) => Some(
            if rows == 1 {
                Stage::Committed
            } else {
                Stage::Failed
            },
        ),
        _ => None,
    }
}

impl Stage {
    /// Whether nothing follows this stage.
    pub open spec fn is_final(self) -> bool {
        self == Stage::Aborted || self == Stage::Committed || self == Stage::Failed
    }

    /// The stage that follows on `signal`.
    pub fn advance(self, signal: Signal) -> (r: Option<Stage>)
        ensures
            r == next_stage(self, signal),
    {
        match (self, signal) {
            (Stage::Loaded, Signal::Shown) => Some(Stage::Previewed),
            (Stage::Previewed, Signal::Answered(yes)) => Some(
                if yes {
                    Stage::Confirmed
                } else {
                    Stage::Aborted
                },
            ),
            (Stage::Confirmed, Signal::Stored(rows)) => Some(
                if rows == 1 {
                    Stage::Committed
                } else {
                    Stage::Failed
                },
            ),
            _ => None,
        }
    }
}

/// The stage reached from `stage` by a run of signals, where each has its
/// place.
pub open spec fn stage_after(stage: Stage, signals: Seq<Signal>) -> Option<Stage>
    decreases signals.len(),
{
    if signals.len() == 0 {
        Some(stage)
    } else {
        match stage_after(stage, signals.drop_last()) {
            Some(reached) => next_stage(reached, signals.last()),
            None => None,
        }
    }
}

/// Every run of signals that ends in `Committed` was confirmed: it
/// is the showing, a yes, and a write of exactly one row, in this order.
/// So no change is written without a yes.
pub proof fn lemma_commit_needs_yes(signals: Seq<Signal>)
    requires
        stage_after(Stage::Loaded, signals) == Some(Stage::Committed),
    ensures
        signals == seq![Signal::Shown, Signal::Answered(true), Signal::Stored(1)],
{
    let s3 = signals;
    assert(s3.len() > 0);
    let s2 = s3.drop_last();
    let r2 = stage_after(Stage::Loaded, s2);
    assert(r2 == Some(Stage::Confirmed) && s3.last() == Signal::Stored(1));
    assert(s2.len() > 0);
    let s1 = s2.drop_last();
    let r1 = stage_after(Stage::Loaded, s1);
    assert(r1 == Some(Stage::Previewed) && s2.last() == Signal::Answered(true));
    assert(s1.len() > 0);
    let s0 = s1.drop_last();
    let r0 = stage_after(Stage::Loaded, s0);
    assert(r0 == Some(Stage::Loaded) && s1.last() == Signal::Shown);
    if s0.len() > 0 {
        let r = stage_after(Stage::Loaded, s0.drop_last());
        assert(r is Some && next_stage(r->0, s0.last()) == Some(Stage::Loaded));
    }
    assert(signals =~= seq![Signal::Shown, Signal::Answered(true), Signal::Stored(1)]);
}

/// Nothing follows a final stage.
pub proof fn lemma_final_stages_end(stage: Stage, signal: Signal)
    requires
        stage.is_final(),
    ensures
        next_stage(stage, signal) is None,
{
}

} // verus!
